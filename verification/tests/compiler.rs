use bfvm::compiler::{compile, link, optimize, read_token, Peephole};
use bfvm::ops::{is_well_formed, Ops};

#[test]
fn tokens_of_the_eight_commands() {
    assert_eq!(read_token('<'), Some(Ops::Move(-1)));
    assert_eq!(read_token('>'), Some(Ops::Move(1)));
    assert_eq!(read_token('-'), Some(Ops::Mod(-1)));
    assert_eq!(read_token('+'), Some(Ops::Mod(1)));
    assert_eq!(read_token('.'), Some(Ops::Print));
    assert_eq!(read_token(','), Some(Ops::Read));
    assert_eq!(read_token('['), Some(Ops::LoopOpen(0)));
    assert_eq!(read_token(']'), Some(Ops::LoopClose(0)));
}

#[test]
fn other_characters_are_no_tokens() {
    assert_eq!(read_token(' '), None);
    assert_eq!(read_token('\n'), None);
    assert_eq!(read_token('a'), None);
    assert_eq!(read_token('é'), None);
}

#[test]
fn empty_source_is_just_end() {
    assert_eq!(compile(""), Ok(vec![Ops::End]));
}

#[test]
fn comments_are_dropped() {
    assert_eq!(compile("hello\n+ world é +\t"), Ok(vec![Ops::Mod(2), Ops::End]));
}

#[test]
fn moves_merge() {
    assert_eq!(compile(">>>"), Ok(vec![Ops::Move(3), Ops::End]));
    assert_eq!(compile("<<"), Ok(vec![Ops::Move(-2), Ops::End]));
    assert_eq!(compile(">><"), Ok(vec![Ops::Move(1), Ops::End]));
}

#[test]
fn mods_merge() {
    assert_eq!(compile("+++"), Ok(vec![Ops::Mod(3), Ops::End]));
    assert_eq!(compile("+--"), Ok(vec![Ops::Mod(-1), Ops::End]));
}

#[test]
fn mods_merge_wrapping() {
    let plus = "+".repeat(128);
    assert_eq!(compile(&plus), Ok(vec![Ops::Mod(-128), Ops::End]));
    let minus = "-".repeat(129);
    assert_eq!(compile(&minus), Ok(vec![Ops::Mod(127), Ops::End]));
    let full = "+".repeat(256);
    assert_eq!(compile(&full), Ok(vec![Ops::Mod(0), Ops::End]));
}

#[test]
fn moves_and_mods_do_not_merge_with_each_other() {
    assert_eq!(
        compile("+>+<"),
        Ok(vec![Ops::Mod(1), Ops::Move(1), Ops::Mod(1), Ops::Move(-1), Ops::End])
    );
}

#[test]
fn clear_loop_becomes_set_cell() {
    assert_eq!(compile("[-]"), Ok(vec![Ops::SetCell(0), Ops::End]));
}

#[test]
fn clear_loop_then_adds_becomes_set_cell_value() {
    assert_eq!(compile("[-]+++"), Ok(vec![Ops::SetCell(3), Ops::End]));
    assert_eq!(compile("[-]--"), Ok(vec![Ops::SetCell(-2), Ops::End]));
}

#[test]
fn set_nonzero_cell_does_not_take_more() {
    assert_eq!(compile("[-]+>+"), Ok(vec![Ops::SetCell(1), Ops::Move(1), Ops::Mod(1), Ops::End]));
    assert_eq!(compile("[-]+.+"), Ok(vec![Ops::SetCell(1), Ops::Print, Ops::Mod(1), Ops::End]));
}

#[test]
fn loop_around_two_decrements_stays_a_loop() {
    assert_eq!(
        compile("[--]"),
        Ok(vec![Ops::LoopOpen(2), Ops::Mod(-2), Ops::LoopClose(0), Ops::End])
    );
}

#[test]
fn loop_around_increment_stays_a_loop() {
    assert_eq!(
        compile("[+]"),
        Ok(vec![Ops::LoopOpen(2), Ops::Mod(1), Ops::LoopClose(0), Ops::End])
    );
}

#[test]
fn scan_loop_becomes_search() {
    assert_eq!(compile("[>]"), Ok(vec![Ops::SearchZeroCell(1), Ops::End]));
    assert_eq!(compile("[<<<]"), Ok(vec![Ops::SearchZeroCell(-3), Ops::End]));
}

#[test]
fn rewrites_see_merged_operations() {
    // the loop body is one decrement only after "+--" has been merged
    assert_eq!(compile("[+--]"), Ok(vec![Ops::SetCell(0), Ops::End]));
    assert_eq!(compile("[><>]"), Ok(vec![Ops::SearchZeroCell(1), Ops::End]));
}

#[test]
fn loops_are_linked_both_ways() {
    assert_eq!(
        compile("+[>+<-]"),
        Ok(vec![
            Ops::Mod(1),
            Ops::LoopOpen(6),
            Ops::Move(1),
            Ops::Mod(1),
            Ops::Move(-1),
            Ops::Mod(-1),
            Ops::LoopClose(1),
            Ops::End,
        ])
    );
}

#[test]
fn nested_loops_are_linked() {
    assert_eq!(
        compile("[.[.].]"),
        Ok(vec![
            Ops::LoopOpen(6),
            Ops::Print,
            Ops::LoopOpen(4),
            Ops::Print,
            Ops::LoopClose(2),
            Ops::Print,
            Ops::LoopClose(0),
            Ops::End,
        ])
    );
}

#[test]
fn empty_loop_is_linked() {
    assert_eq!(compile("[]"), Ok(vec![Ops::LoopOpen(1), Ops::LoopClose(0), Ops::End]));
}

#[test]
fn every_jump_leads_to_its_partner() {
    let ops = compile("+[>[.-]<[,[+.]]]>[[.]]").unwrap();
    for (i, op) in ops.iter().enumerate() {
        match *op {
            Ops::LoopOpen(t) => assert_eq!(ops[t], Ops::LoopClose(i)),
            Ops::LoopClose(t) => assert_eq!(ops[t], Ops::LoopOpen(i)),
            _ => {}
        }
    }
    assert_eq!(ops.iter().filter(|op| **op == Ops::End).count(), 1);
    assert_eq!(ops[ops.len() - 1], Ops::End);
}

#[test]
fn close_without_open_is_refused() {
    assert_eq!(compile("]"), Err("missing [ for ]".to_string()));
    assert_eq!(compile("+]+["), Err("missing [ for ]".to_string()));
    assert_eq!(compile("[.]]"), Err("missing [ for ]".to_string()));
}

#[test]
fn open_without_close_is_refused() {
    assert_eq!(compile("["), Err("missing ] for [".to_string()));
    assert_eq!(compile("[[.]"), Err("missing ] for [".to_string()));
    assert_eq!(compile("[[[["), Err("missing ] for [".to_string()));
}

#[test]
fn close_without_open_wins_over_open_without_close() {
    assert_eq!(compile("[]][["), Err("missing [ for ]".to_string()));
}

#[test]
fn rewritten_loops_count_as_balanced() {
    assert_eq!(compile("[-]]"), Err("missing [ for ]".to_string()));
    assert_eq!(compile("[[>]"), Err("missing ] for [".to_string()));
    assert_eq!(
        compile("[[-]]"),
        Ok(vec![Ops::LoopOpen(2), Ops::SetCell(0), Ops::LoopClose(0), Ops::End])
    );
}

#[test]
fn compiling_twice_gives_the_same_program() {
    let source = "++[>+++[>+<-]<-]>>.[-]+++.";
    assert_eq!(compile(source), compile(source));
    assert_eq!(compile("]["), compile("]["));
}

#[test]
fn optimize_leaves_brackets_unlinked() {
    assert_eq!(
        optimize("[.]"),
        vec![Ops::LoopOpen(0), Ops::Print, Ops::LoopClose(0)]
    );
    assert_eq!(optimize("abc"), Vec::<Ops>::new());
    assert_eq!(optimize("]]"), vec![Ops::LoopClose(0), Ops::LoopClose(0)]);
}

#[test]
fn link_sets_the_indices_and_appends_end() {
    let ops = vec![Ops::LoopOpen(0), Ops::Print, Ops::LoopClose(0)];
    assert_eq!(
        link(ops),
        Ok(vec![Ops::LoopOpen(2), Ops::Print, Ops::LoopClose(0), Ops::End])
    );
    assert_eq!(link(vec![Ops::LoopClose(0)]), Err("missing [ for ]".to_string()));
    assert_eq!(link(vec![Ops::LoopOpen(0)]), Err("missing ] for [".to_string()));
    assert_eq!(link(vec![]), Ok(vec![Ops::End]));
}

#[test]
fn peephole_holds_back_two_operations() {
    let mut p = Peephole::new();
    p.take_in(Ops::LoopOpen(0));
    p.take_in(Ops::Mod(1));
    p.take_in(Ops::Mod(-1));
    p.take_in(Ops::Mod(-1));
    p.take_in(Ops::LoopClose(0));
    p.take_in(Ops::Mod(5));
    assert_eq!(p.finish(), vec![Ops::SetCell(5)]);
}

#[test]
fn peephole_keeps_moves_apart_when_their_sum_does_not_fit() {
    let mut p = Peephole::new();
    p.take_in(Ops::Move(isize::MAX));
    p.take_in(Ops::Move(1));
    assert_eq!(p.finish(), vec![Ops::Move(isize::MAX), Ops::Move(1)]);
    let mut q = Peephole::new();
    q.take_in(Ops::Move(isize::MIN));
    q.take_in(Ops::Move(-1));
    q.take_in(Ops::Move(1));
    assert_eq!(q.finish(), vec![Ops::Move(isize::MIN), Ops::Move(0)]);
}

#[test]
fn compiled_programs_are_well_formed() {
    assert!(is_well_formed(&compile("").unwrap()));
    assert!(is_well_formed(&compile("+[>[.-]<[,[+.]]]>[[.]]").unwrap()));
    assert!(is_well_formed(&compile("[-]+++[>>]").unwrap()));
}

#[test]
fn programs_that_are_not_well_formed() {
    assert!(!is_well_formed(&[]));
    assert!(!is_well_formed(&[Ops::Print]));
    assert!(!is_well_formed(&[Ops::End, Ops::End]));
    assert!(!is_well_formed(&[Ops::LoopOpen(0), Ops::LoopClose(0), Ops::End]));
    assert!(!is_well_formed(&[Ops::LoopOpen(1), Ops::LoopClose(1), Ops::End]));
    assert!(!is_well_formed(&[Ops::LoopOpen(2), Ops::LoopClose(0), Ops::End]));
    assert!(!is_well_formed(&[Ops::LoopOpen(5), Ops::LoopClose(0), Ops::End]));
    assert!(!is_well_formed(&[Ops::LoopClose(1), Ops::LoopOpen(0), Ops::End]));
    assert!(is_well_formed(&[Ops::LoopOpen(1), Ops::LoopClose(0), Ops::End]));
    assert!(is_well_formed(&[Ops::End]));
}
