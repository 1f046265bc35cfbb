use bfvm::channel::{
    ConsoleInputOutput, DummyInputOutput, InputOutput, ScriptInputOutput, StringInputOutput,
};
use bfvm::compiler::{compile, link, read_token};
use bfvm::machine::{
    cell_to_char, char_to_cell, execute, execute_bounded, shifted_pos, Fault, Vm, STEP_LIMIT,
    TAPE_LEN,
};
use bfvm::ops::Ops;

fn output_of(source: &str) -> (Result<(), Fault>, String) {
    let ops = compile(source).unwrap();
    let mut io = StringInputOutput::new();
    let r = execute(&ops, &mut io);
    (r, io.output)
}

fn naive_output_of(source: &str, limit: u64) -> (Result<(), Fault>, String) {
    let mut tokens = Vec::new();
    for c in source.chars() {
        if let Some(op) = read_token(c) {
            tokens.push(op);
        }
    }
    let ops = link(tokens).unwrap();
    let mut io = StringInputOutput::new();
    let r = execute_bounded(&ops, &mut io, limit);
    (r, io.output)
}

const HELLO: &str = "++++++++[>++++[>++>+++>+++>+<<<<-]>+>+>->>+[<]<-]>>.>---.+++++++..+++.>>.<-.<.+++.------.--------.>>+.>++.";

#[test]
fn constants() {
    assert_eq!(TAPE_LEN, 30000);
    assert_eq!(STEP_LIMIT, u64::MAX);
}

#[test]
fn string_channel_starts_empty_and_has_no_input() {
    let mut io = StringInputOutput::new();
    assert_eq!(io.output, "");
    assert_eq!(io.read(), None);
    io.write('a');
    io.write('\n');
    io.write('é');
    assert_eq!(io.output, "a\né");
    assert_eq!(io.read(), None);
}

#[test]
fn dummy_channel_has_no_input() {
    let mut io = DummyInputOutput::new();
    io.write('a');
    assert_eq!(io.read(), None);
}

#[test]
fn console_channel_has_no_input() {
    let mut io = ConsoleInputOutput::new();
    io.write('a');
    assert_eq!(io.read(), None);
}

#[test]
fn hello_world() {
    assert_eq!(output_of(HELLO), (Ok(()), "Hello World!\n".to_string()));
}

#[test]
fn hello_world_on_the_dummy_channel() {
    let ops = compile(HELLO).unwrap();
    let mut io = DummyInputOutput::new();
    assert_eq!(execute(&ops, &mut io), Ok(()));
}

#[test]
fn empty_program_prints_nothing() {
    assert_eq!(output_of(""), (Ok(()), String::new()));
}

#[test]
fn increment_wraps_at_127() {
    let source = format!("{}.", "+".repeat(127));
    assert_eq!(output_of(&source), (Ok(()), "\u{7f}".to_string()));
    let source = format!("{}.", "+".repeat(128));
    assert_eq!(output_of(&source), (Ok(()), "\u{80}".to_string()));
    // one step at a time, so that no merged operation hides the wrap
    let source = format!("{}.", "+>+<".repeat(128));
    assert_eq!(output_of(&source), (Ok(()), "\u{80}".to_string()));
}

#[test]
fn unsigned_255_wraps_to_0() {
    let source = format!("{}.+.", "+".repeat(255));
    assert_eq!(output_of(&source), (Ok(()), "\u{ff}\u{0}".to_string()));
}

#[test]
fn decrement_wraps_at_0() {
    assert_eq!(output_of("-."), (Ok(()), "\u{ff}".to_string()));
    assert_eq!(char_to_cell('\u{ff}'), -1);
}

#[test]
fn cells_and_characters() {
    assert_eq!(cell_to_char(0), '\0');
    assert_eq!(cell_to_char(65), 'A');
    assert_eq!(cell_to_char(127), '\u{7f}');
    assert_eq!(cell_to_char(-128), '\u{80}');
    assert_eq!(cell_to_char(-1), '\u{ff}');
    assert_eq!(char_to_cell('A'), 65);
    assert_eq!(char_to_cell('\u{80}'), -128);
    assert_eq!(char_to_cell('\u{100}'), 0);
    assert_eq!(char_to_cell('\u{1f600}'), 0);
    assert_eq!(char_to_cell('\u{141}'), 65);
}

#[test]
fn shifted_positions() {
    assert_eq!(shifted_pos(0, 0), Some(0));
    assert_eq!(shifted_pos(0, 1), Some(1));
    assert_eq!(shifted_pos(0, -1), None);
    assert_eq!(shifted_pos(5, -5), Some(0));
    assert_eq!(shifted_pos(5, -6), None);
    assert_eq!(shifted_pos(29999, 0), Some(29999));
    assert_eq!(shifted_pos(29999, 1), None);
    assert_eq!(shifted_pos(0, 29999), Some(29999));
    assert_eq!(shifted_pos(0, 30000), None);
    assert_eq!(shifted_pos(10, isize::MAX), None);
    assert_eq!(shifted_pos(10, isize::MIN), None);
}

#[test]
fn clear_loop_zeroes_the_cell() {
    assert_eq!(output_of("+++++[-]."), (Ok(()), "\u{0}".to_string()));
    assert_eq!(naive_output_of("+++++[-].", 1000), (Ok(()), "\u{0}".to_string()));
    let by_hand = format!("+++++{}-----.", "-".repeat(256));
    assert_eq!(output_of(&by_hand), (Ok(()), "\u{0}".to_string()));
}

#[test]
fn clear_loop_then_three_leaves_three() {
    assert_eq!(output_of("+++++++[-]+++."), (Ok(()), "\u{3}".to_string()));
    assert_eq!(output_of("[-]+++."), (Ok(()), "\u{3}".to_string()));
}

#[test]
fn search_stops_on_a_zero_cell() {
    // cells 1, 1, 1, 0: the search from the first rests on the fourth
    assert_eq!(output_of("+>+>+<<[>]+++."), (Ok(()), "\u{3}".to_string()));
    // a search on a zero cell does not move
    assert_eq!(output_of("[>>]+."), (Ok(()), "\u{1}".to_string()));
}

#[test]
fn loop_is_skipped_on_zero_and_repeated_otherwise() {
    assert_eq!(output_of("[.]"), (Ok(()), String::new()));
    assert_eq!(output_of("+++[.-]"), (Ok(()), "\u{3}\u{2}\u{1}".to_string()));
    assert_eq!(output_of("++[>+++<-]>."), (Ok(()), "\u{6}".to_string()));
}

#[test]
fn optimized_and_naive_programs_print_the_same() {
    assert_eq!(naive_output_of(HELLO, 1_000_000), output_of(HELLO));
    let source = "+++[>++[>+<-]<-]>>.[-]+++.<<+>+>[<]>.[-]--.";
    assert_eq!(naive_output_of(source, 1_000_000), output_of(source));
}

#[test]
fn read_without_input_fails() {
    assert_eq!(output_of(","), (Err(Fault::NoInput), String::new()));
    assert_eq!(output_of("+.,."), (Err(Fault::NoInput), "\u{1}".to_string()));
}

#[test]
fn moving_off_the_tape_fails() {
    assert_eq!(output_of("<"), (Err(Fault::OutOfRange), String::new()));
    assert_eq!(output_of("+.<."), (Err(Fault::OutOfRange), "\u{1}".to_string()));
    let to_the_end = ">".repeat(29999);
    assert_eq!(output_of(&format!("{}+.", to_the_end)), (Ok(()), "\u{1}".to_string()));
    let over_the_end = ">".repeat(30000);
    assert_eq!(output_of(&over_the_end), (Err(Fault::OutOfRange), String::new()));
}

#[test]
fn searching_off_the_tape_fails() {
    assert_eq!(output_of("+[<]"), (Err(Fault::OutOfRange), String::new()));
}

#[test]
fn endless_loop_runs_into_the_step_limit() {
    let ops = compile("+[]").unwrap();
    let mut io = StringInputOutput::new();
    assert_eq!(execute_bounded(&ops, &mut io, 1000), Err(Fault::StepLimit));
    assert_eq!(io.output, "");
}

#[test]
fn search_with_step_zero_runs_into_the_step_limit() {
    let ops = compile("+[<>]").unwrap();
    assert_eq!(ops, vec![Ops::Mod(1), Ops::SearchZeroCell(0), Ops::End]);
    let mut io = StringInputOutput::new();
    assert_eq!(execute_bounded(&ops, &mut io, 1000), Err(Fault::StepLimit));
}

#[test]
fn step_limit_counts_operations() {
    let ops = compile("+.>.").unwrap();
    assert_eq!(ops.len(), 5);
    let mut io = StringInputOutput::new();
    assert_eq!(execute_bounded(&ops, &mut io, 4), Ok(()));
    assert_eq!(io.output, "\u{1}\u{0}");
    let mut io = StringInputOutput::new();
    assert_eq!(execute_bounded(&ops, &mut io, 3), Err(Fault::StepLimit));
    assert_eq!(io.output, "\u{1}");
    let mut io = StringInputOutput::new();
    assert_eq!(execute_bounded(&ops, &mut io, 0), Err(Fault::StepLimit));
    let end = compile("").unwrap();
    assert_eq!(execute_bounded(&end, &mut io, 0), Ok(()));
}

#[test]
fn output_is_appended_to_what_the_channel_holds() {
    let ops = compile("+++.").unwrap();
    let mut io = StringInputOutput::new();
    io.write('x');
    assert_eq!(execute(&ops, &mut io), Ok(()));
    assert_eq!(execute(&ops, &mut io), Ok(()));
    assert_eq!(io.output, "x\u{3}\u{3}");
}

#[test]
fn vm_steps_one_operation_at_a_time() {
    let ops = compile("+>[-]++<[.-],").unwrap();
    assert_eq!(
        ops,
        vec![
            Ops::Mod(1),
            Ops::Move(1),
            Ops::SetCell(2),
            Ops::Move(-1),
            Ops::LoopOpen(7),
            Ops::Print,
            Ops::Mod(-1),
            Ops::LoopClose(4),
            Ops::Read,
            Ops::End,
        ]
    );
    let mut io = StringInputOutput::new();
    let mut vm = Vm::new();
    assert_eq!(vm.memory.len(), 30000);
    assert_eq!((vm.pos, vm.ip), (0, 0));
    assert_eq!(vm.step(&ops, &mut io), None);
    assert_eq!((vm.memory[0], vm.pos, vm.ip), (1, 0, 1));
    assert_eq!(vm.step(&ops, &mut io), None);
    assert_eq!((vm.pos, vm.ip), (1, 2));
    assert_eq!(vm.step(&ops, &mut io), None);
    assert_eq!((vm.memory[1], vm.pos, vm.ip), (2, 1, 3));
    assert_eq!(vm.step(&ops, &mut io), None);
    assert_eq!((vm.pos, vm.ip), (0, 4));
    assert_eq!(vm.step(&ops, &mut io), None);
    assert_eq!(vm.ip, 5);
    assert_eq!(vm.step(&ops, &mut io), None);
    assert_eq!(io.output, "\u{1}");
    assert_eq!(vm.step(&ops, &mut io), None);
    assert_eq!((vm.memory[0], vm.ip), (0, 7));
    assert_eq!(vm.step(&ops, &mut io), None);
    assert_eq!(vm.ip, 8);
    assert_eq!(vm.step(&ops, &mut io), Some(Fault::NoInput));
    assert_eq!((vm.memory[0], vm.memory[1], vm.pos, vm.ip), (0, 2, 0, 8));
}

#[test]
fn vm_loop_open_on_zero_jumps_behind_the_close() {
    let ops = compile("[.]+").unwrap();
    let mut io = StringInputOutput::new();
    let mut vm = Vm::new();
    assert_eq!(vm.step(&ops, &mut io), None);
    assert_eq!(vm.ip, 3);
}

#[test]
fn vm_loop_close_on_nonzero_jumps_behind_the_open() {
    let ops = compile("+[.]").unwrap();
    let mut io = StringInputOutput::new();
    let mut vm = Vm::new();
    assert_eq!(vm.step(&ops, &mut io), None);
    assert_eq!(vm.step(&ops, &mut io), None);
    assert_eq!(vm.step(&ops, &mut io), None);
    assert_eq!(vm.ip, 3);
    assert_eq!(vm.step(&ops, &mut io), None);
    assert_eq!(vm.ip, 2);
}

#[test]
fn vm_search_moves_one_step_per_operation() {
    let ops = compile("+>+<[>]").unwrap();
    let mut io = StringInputOutput::new();
    let mut vm = Vm::new();
    for _ in 0..4 {
        assert_eq!(vm.step(&ops, &mut io), None);
    }
    assert_eq!((vm.pos, vm.ip), (0, 4));
    assert_eq!(vm.step(&ops, &mut io), None);
    assert_eq!((vm.pos, vm.ip), (1, 4));
    assert_eq!(vm.step(&ops, &mut io), None);
    assert_eq!((vm.pos, vm.ip), (2, 4));
    assert_eq!(vm.step(&ops, &mut io), None);
    assert_eq!((vm.pos, vm.ip), (2, 5));
}

#[test]
fn vm_fault_changes_nothing() {
    let ops = compile("<").unwrap();
    let mut io = StringInputOutput::new();
    let mut vm = Vm::new();
    assert_eq!(vm.step(&ops, &mut io), Some(Fault::OutOfRange));
    assert_eq!((vm.pos, vm.ip), (0, 0));
}

#[test]
fn script_channel_hands_out_its_input_in_order() {
    let mut io = ScriptInputOutput::new(vec!['a', 'b']);
    assert_eq!(io.read(), Some('a'));
    io.write('x');
    assert_eq!(io.read(), Some('b'));
    assert_eq!(io.read(), None);
    assert_eq!(io.read(), None);
    assert_eq!(io.taken, 2);
    assert_eq!(io.output, "x");
}

#[test]
fn read_stores_the_low_byte_of_the_character() {
    let ops = compile(",.,.,.+.,").unwrap();
    let mut io = ScriptInputOutput::new(vec!['A', '\u{141}', '\u{ff}']);
    assert_eq!(execute(&ops, &mut io), Err(Fault::NoInput));
    assert_eq!(io.output, "AA\u{ff}\u{0}");
    assert_eq!(io.taken, 3);
}

#[test]
fn echo_until_a_zero_character() {
    let ops = compile(",[.,]").unwrap();
    let mut io = ScriptInputOutput::new(vec!['h', 'i', '\0', 'x']);
    assert_eq!(execute(&ops, &mut io), Ok(()));
    assert_eq!(io.output, "hi");
    assert_eq!(io.taken, 3);
}

#[test]
fn naive_and_optimized_programs_read_the_same() {
    let source = ",[>+<-]>[-]<,+++.>.";
    let optimized = compile(source).unwrap();
    let mut tokens = Vec::new();
    for c in source.chars() {
        if let Some(op) = read_token(c) {
            tokens.push(op);
        }
    }
    let naive = link(tokens).unwrap();
    let mut a = ScriptInputOutput::new(vec!['\u{5}', 'x']);
    let mut b = ScriptInputOutput::new(vec!['\u{5}', 'x']);
    assert_eq!(execute(&optimized, &mut a), Ok(()));
    assert_eq!(execute(&naive, &mut b), Ok(()));
    assert_eq!(a.output, "{\u{0}");
    assert_eq!(a.output, b.output);
}

#[test]
fn programs_without_loops_print_the_same_with_and_without_rewrites() {
    let source = "+++>++<-.>.>>,";
    assert_eq!(naive_output_of(source, 100), output_of(source));
    assert_eq!(output_of(source), (Err(Fault::NoInput), "\u{2}\u{2}".to_string()));
    let source = "+.>-.<<";
    assert_eq!(naive_output_of(source, 100), output_of(source));
    assert_eq!(output_of(source), (Err(Fault::OutOfRange), "\u{1}\u{ff}".to_string()));
}

#[test]
fn merged_moves_do_not_visit_the_cells_between() {
    assert_eq!(naive_output_of("<>.", 100), (Err(Fault::OutOfRange), String::new()));
    assert_eq!(output_of("<>."), (Ok(()), "\u{0}".to_string()));
}
