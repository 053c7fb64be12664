use appendkv::cpu::{add_numbers, load_and_run, Cpu, Outcome};

#[test]
fn load_and_run_computes_45() {
    assert_eq!(load_and_run(), 45);
}

#[test]
fn add_numbers_computes_35() {
    assert_eq!(add_numbers(), 35);
}

#[test]
fn read_opcode_is_big_endian() {
    let mut cpu = Cpu::new();
    cpu.memory[10] = 0x80;
    cpu.memory[11] = 0x14;
    cpu.position_in_memory = 10;
    assert_eq!(cpu.read_opcode(), 0x8014);
}

#[test]
fn add_sets_carry_on_overflow() {
    let mut cpu = Cpu::new();
    cpu.registers[0] = 200;
    cpu.registers[1] = 100;
    cpu.add_xy(0, 1);
    assert_eq!(cpu.registers[0], 44);
    assert_eq!(cpu.registers[15], 1);
    cpu.add_xy(0, 1);
    assert_eq!(cpu.registers[0], 144);
    assert_eq!(cpu.registers[15], 0);
}

#[test]
fn call_and_ret_restore_position() {
    let mut cpu = Cpu::new();
    cpu.position_in_memory = 6;
    assert_eq!(cpu.call(0x300), None);
    assert_eq!(cpu.position_in_memory, 0x300);
    assert_eq!(cpu.stack_pointer, 1);
    assert_eq!(cpu.stack[0], 6);
    assert_eq!(cpu.ret(), None);
    assert_eq!(cpu.position_in_memory, 6);
    assert_eq!(cpu.stack_pointer, 0);
}

#[test]
fn recursion_overflows_stack() {
    let mut cpu = Cpu::new();
    cpu.memory[0] = 0x20;
    cpu.memory[1] = 0x00;
    assert_eq!(cpu.run(), Outcome::StackOverflow);
    assert_eq!(cpu.stack_pointer, 16);
}

#[test]
fn return_without_call_underflows() {
    let mut cpu = Cpu::new();
    cpu.memory[0] = 0x00;
    cpu.memory[1] = 0xEE;
    assert_eq!(cpu.run(), Outcome::StackUnderflow);
}

#[test]
fn unknown_opcode_stops() {
    let mut cpu = Cpu::new();
    cpu.memory[0] = 0x12;
    cpu.memory[1] = 0x34;
    assert_eq!(cpu.run(), Outcome::UnknownOpcode(0x1234));
}

#[test]
fn running_off_memory_stops() {
    let mut cpu = Cpu::new();
    cpu.position_in_memory = 4095;
    assert_eq!(cpu.run(), Outcome::OutOfMemory);
}
