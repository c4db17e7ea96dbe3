use advent_of_code::day17::{part_one, part_two, run_machine, MachineState};

fn machine(a: u64, b: u64, c: u64, memory: Vec<u64>) -> MachineState {
    MachineState { a, b, c, pc: 0, memory, output: vec![] }
}

#[test]
fn test_part_one_1() {
    // If register C contains 9, the program 2,6 would set register B to 1.
    let mut m = machine(0, 0, 9, vec![2, 6]);
    run_machine(&mut m);
    assert_eq!(
        m,
        MachineState { a: 0, b: 1, c: 9, pc: 2, memory: vec![2, 6], output: vec![] }
    );
}

#[test]
fn machine_test_part_one_2() {
    // If register A contains 10, the program 5,0,5,1,5,4 would output 0,1,2.
    let mut m = machine(10, 0, 0, vec![5, 0, 5, 1, 5, 4]);
    run_machine(&mut m);
    assert_eq!(
        m,
        MachineState {
            a: 10,
            b: 0,
            c: 0,
            pc: 6,
            memory: vec![5, 0, 5, 1, 5, 4],
            output: vec![0, 1, 2],
        }
    );
}

#[test]
fn machine_test_part_one_3() {
    // If register A contains 2024, the program 0,1,5,4,3,0 would output
    // 4,2,5,6,7,7,7,7,3,1,0 and leave 0 in register A.
    let mut m = machine(2024, 0, 0, vec![0, 1, 5, 4, 3, 0]);
    run_machine(&mut m);
    assert_eq!(
        m,
        MachineState {
            a: 0,
            b: 0,
            c: 0,
            pc: 6,
            memory: vec![0, 1, 5, 4, 3, 0],
            output: vec![4, 2, 5, 6, 7, 7, 7, 7, 3, 1, 0],
        }
    );
}

#[test]
fn test_part_one_4() {
    // If register B contains 29, the program 1,7 would set register B to 26.
    let mut m = machine(0, 29, 0, vec![1, 7]);
    run_machine(&mut m);
    assert_eq!(
        m,
        MachineState { a: 0, b: 26, c: 0, pc: 2, memory: vec![1, 7], output: vec![] }
    );
}

#[test]
fn test_part_one_5() {
    // If register B contains 2024 and register C contains 43690, the program 4,0
    // would set register B to 44354.
    let mut m = machine(0, 2024, 43690, vec![4, 0]);
    run_machine(&mut m);
    assert_eq!(
        m,
        MachineState { a: 0, b: 44354, c: 43690, pc: 2, memory: vec![4, 0], output: vec![] }
    );
}

#[test]
fn machine_test_part_one() {
    let input = "Register A: 729\nRegister B: 0\nRegister C: 0\n\nProgram: 0,1,5,4,3,0\n";
    let result = part_one(input);
    assert_eq!(result, Some("4,6,3,5,6,3,5,2,1,0".to_string()));
}

#[test]
fn machine_test_part_two() {
    let result = part_two(
        "Register A: 2024
Register B: 0
Register C: 0

Program: 0,3,5,4,3,0",
    );
    assert_eq!(result, Some(117440));
}

#[test]
fn machine_empty_program() {
    let mut m = machine(5, 0, 0, vec![]);
    run_machine(&mut m);
    assert_eq!(m.pc, 0);
    assert!(m.output.is_empty());
    assert_eq!(part_one("Register A: 5\nRegister B: 0\nRegister C: 0\n\nProgram: \n"), Some(String::new()));
}

#[test]
fn machine_division_and_jumps() {
    // adv with a register operand larger than the width leaves zero
    let mut m = machine(1000, 70, 0, vec![0, 5]);
    run_machine(&mut m);
    assert_eq!(m.a, 0);
    // bst 4 / out 5 / bdv, cdv
    let mut m = machine(29, 0, 0, vec![2, 4, 5, 5, 6, 1, 7, 2, 5, 6]);
    run_machine(&mut m);
    assert_eq!(m.b, 14);
    assert_eq!(m.c, 7);
    assert_eq!(m.output, vec![5, 7]);
}

#[test]
fn machine_rejects_missing_registers() {
    assert_eq!(part_one("Register A: 5\n"), None);
}
