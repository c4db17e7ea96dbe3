use advent_of_code::day24::{part_one, part_two};

#[test]
fn gates_test_part_one_small() {
    let result = part_one(
        "x00: 1
x01: 1
x02: 1
y00: 0
y01: 1
y02: 0

x00 AND y00 -> z00
x01 XOR y01 -> z01
x02 OR y02 -> z02",
    );
    assert_eq!(result, Some(4));
}

#[test]
fn gates_chain_needs_several_passes() {
    // the gates are listed in the reverse of the order they can fire in
    let result = part_one(
        "x00: 1
y00: 1

abc XOR y00 -> z01
x00 AND y00 -> abc
x00 XOR y00 -> z00
",
    );
    // z00 = 0, abc = 1, z01 = 1 xor 1 = 0
    assert_eq!(result, Some(0));
    let result = part_one("x00: 1\ny00: 0\n\nabc OR y00 -> z03\nx00 AND x00 -> abc\n");
    assert_eq!(result, Some(8));
}

#[test]
fn gates_unreadable_line() {
    assert_eq!(part_one("x00: 2\n"), None);
    assert_eq!(part_one("x00 NAND y00 -> z00\n"), None);
}

const LARGER: &str = "x00: 1
x01: 0
x02: 1
x03: 1
x04: 0
y00: 1
y01: 1
y02: 1
y03: 1
y04: 1

ntg XOR fgs -> mjb
y02 OR x01 -> tnw
kwq OR kpj -> z05
x00 OR x03 -> fst
tgd XOR rvg -> z01
vdt OR tnw -> bfw
bfw AND frj -> z10
ffh OR nrd -> bqk
y00 AND y03 -> djm
y03 OR y00 -> psh
bqk OR frj -> z08
tnw OR fst -> frj
gnj AND tgd -> z11
bfw XOR mjb -> z00
x03 OR x00 -> vdt
gnj AND wpb -> z02
x04 AND y00 -> kjc
djm OR pbm -> qhw
nrd AND vdt -> hwm
kjc AND fst -> rvg
y04 OR y02 -> fgs
y01 AND x02 -> pbm
ntg OR kjc -> kwq
psh XOR fgs -> tgd
qhw XOR tgd -> z09
pbm OR djm -> kpj
x03 XOR y03 -> ffh
x00 XOR y04 -> ntg
bfw OR bqk -> z06
nrd XOR fgs -> wpb
frj XOR qhw -> z04
bqk OR frj -> z07
y03 OR x01 -> nrd
hwm AND bqk -> z03
tgd XOR rvg -> z12
tnw OR pbm -> gnj
";

#[test]
fn gates_test_part_one() {
    let result = part_one(LARGER);
    assert_eq!(result, Some(2024));
}

const ADDER: &str = "x00: 1
x01: 1
y00: 1
y01: 0

x00 XOR y00 -> z00
x00 AND y00 -> c00
x01 XOR y01 -> s01
s01 XOR c00 -> z01
x01 AND y01 -> a01
s01 AND c00 -> b01
a01 OR b01 -> z02
";

#[test]
fn gates_adder_adds() {
    // 3 + 1
    assert_eq!(part_one(ADDER), Some(4));
}

#[test]
fn gates_correct_adder_has_no_misplaced_wires() {
    assert_eq!(part_two(ADDER), Some(String::new()));
}

#[test]
fn gates_swapped_outputs_are_found() {
    let swapped = ADDER
        .replace("s01 XOR c00 -> z01", "s01 XOR c00 -> a01")
        .replace("x01 AND y01 -> a01", "x01 AND y01 -> z01");
    assert_eq!(part_two(&swapped), Some("a01,z01".to_string()));
}
