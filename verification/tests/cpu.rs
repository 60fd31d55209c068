use actionkv::cpu::CPU;

fn fresh_cpu() -> CPU {
    CPU {
        registers: [0; 16],
        memory: [0; 4096],
        position_in_memory: 0,
        stack: [0; 16],
        stack_pointer: 0,
    }
}

#[test]
fn add_twice_program() {
    let mut cpu = fresh_cpu();
    cpu.registers[0] = 5;
    cpu.registers[1] = 10;

    let mem = &mut cpu.memory;
    // call add_twice; call add_twice; halt
    mem[0x000] = 0x21;
    mem[0x001] = 0x00;
    mem[0x002] = 0x21;
    mem[0x003] = 0x00;
    mem[0x004] = 0x00;
    mem[0x005] = 0x00;
    // add_twice: 8014; 8014; 00EE
    mem[0x100] = 0x80;
    mem[0x101] = 0x14;
    mem[0x102] = 0x80;
    mem[0x103] = 0x14;
    mem[0x104] = 0x00;
    mem[0x105] = 0xEE;

    cpu.run();

    assert_eq!(cpu.registers[0], 45);
    assert_eq!(cpu.stack_pointer, 0);
}

#[test]
fn read_opcode_is_big_endian() {
    let mut cpu = fresh_cpu();
    cpu.memory[10] = 0x8A;
    cpu.memory[11] = 0xB4;
    cpu.position_in_memory = 10;
    assert_eq!(cpu.read_opcode(), 0x8AB4);
}

#[test]
fn add_xy_sets_and_clears_the_carry_flag() {
    let mut cpu = fresh_cpu();
    cpu.registers[2] = 200;
    cpu.registers[3] = 100;
    cpu.add_xy(2, 3);
    assert_eq!(cpu.registers[2], 44);
    assert_eq!(cpu.registers[0xF], 1);

    cpu.registers[4] = 1;
    cpu.registers[5] = 2;
    cpu.add_xy(4, 5);
    assert_eq!(cpu.registers[4], 3);
    assert_eq!(cpu.registers[0xF], 0);
}

#[test]
fn call_and_ret_restore_the_position() {
    let mut cpu = fresh_cpu();
    cpu.position_in_memory = 0x20;
    cpu.call(0x300);
    assert_eq!(cpu.position_in_memory, 0x300);
    assert_eq!(cpu.stack_pointer, 1);
    assert_eq!(cpu.stack[0], 0x20);
    cpu.ret();
    assert_eq!(cpu.position_in_memory, 0x20);
    assert_eq!(cpu.stack_pointer, 0);
}
