use cargo_bot_simulator::interp::candidate_count;
use cargo_bot_simulator::program::{encode_band, fetch, set_field};
use cargo_bot_simulator::stack::{get_slot, get_top, pick_up, put_down, set_slot};
use cargo_bot_simulator::text::{read_board, read_program};
use cargo_bot_simulator::{
    Box, CbInterpret, EncodingError, FinishState, IfColor, Instruction, OpCode, StepState,
};

#[test]
fn pickup_move_drop_finishes_in_six_rounds() {
    let mut cb = CbInterpret::<5>::new("q.q>q>q>q>q.", "y,n,n,n,n", "n,n,n,n,y").unwrap();
    assert_eq!(cb.data, [4, 0, 0, 0, 0]);
    assert_eq!(cb.run_all(), FinishState::Finished(6));
    assert_eq!(cb.crane(), Box::Empty);
    assert_eq!(cb.data, [0, 0, 0, 0, 4]);
    assert_eq!(cb.board(), cb.finish_state());
    assert_eq!(cb.dp(), 4);
}

#[test]
fn move_left_from_first_stack_crashes_after_one_round() {
    let mut cb = CbInterpret::<2>::new("q<", "r,n", "n,r").unwrap();
    assert_eq!(cb.run_all(), FinishState::Crashed(1));
    assert_eq!(cb.dp(), usize::MAX);
    assert_eq!(cb.data, [3, 0]);
}

#[test]
fn move_right_from_last_stack_crashes_on_that_step() {
    let mut cb = CbInterpret::<2>::new("q>q>", "r,n", "n,r").unwrap();
    assert_eq!(cb.step(), StepState::Normal);
    assert_eq!(cb.dp(), 1);
    assert_eq!(cb.step(), StepState::Crashed);
    assert_eq!(cb.dp(), 2);
}

#[test]
fn search_on_a_solved_board_gives_the_empty_band() {
    let mut cb = CbInterpret::<1>::new("", "r", "r").unwrap();
    assert_eq!(cb.search(2), Some(0));
    assert_eq!(cb.instructions()[0], 0);
}

#[test]
fn search_finds_the_first_band_that_picks_the_box_up() {
    let mut cb = CbInterpret::<1>::new("", "r", "n").unwrap();
    assert_eq!(cb.search(1), Some(11));
    assert_eq!(cb.crane(), Box::Red);
    assert_eq!(cb.data, [0]);
    assert_eq!(cb.instructions(), [11, 0, 0, 0]);
}

#[test]
fn search_reports_when_no_band_reaches_the_goal() {
    let mut cb = CbInterpret::<1>::new("", "r", "b").unwrap();
    assert_eq!(cb.search(0), None);
    assert_eq!(cb.search(1), None);
    assert_eq!(cb.instructions()[0], 63);
    assert_eq!(cb.search(2), None);
    assert_eq!(cb.instructions()[0], 4095);
}

#[test]
fn search_for_a_carry_finds_a_band_that_works() {
    let mut cb = CbInterpret::<2>::new("", "r,n", "n,r").unwrap();
    let found = cb.search(3).unwrap();
    assert!(found <= 11 + (9 << 6) + (11 << 12));
    let mut again = CbInterpret::<2>::new("", "r,n", "n,r").unwrap();
    assert!(matches!(again.try_band(found), FinishState::Finished(_)));
    assert_eq!(again.data, [0, 3]);
}

#[test]
fn brute_force_on_a_solved_board_stops_at_once() {
    let mut cb = CbInterpret::<2>::new("q>", "r,b", "r,b").unwrap();
    assert_eq!(cb.brute_force(), Some(0));
}

#[test]
fn candidate_counts_are_powers_of_sixty_four() {
    assert_eq!(candidate_count(0), 1);
    assert_eq!(candidate_count(1), 64);
    assert_eq!(candidate_count(2), 4096);
    assert_eq!(candidate_count(8), 1u64 << 48);
}

#[test]
fn a_step_on_the_goal_board_finishes_with_a_call_pending() {
    let mut cb = CbInterpret::<1>::new("q1", "r", "r").unwrap();
    assert_eq!(cb.step(), StepState::Finished);
    assert_eq!(cb.depth(), 1);
    assert_eq!(cb.ip(), (0, 0));
}

#[test]
fn a_step_on_the_goal_board_finishes_at_the_end_of_the_band() {
    let mut cb = CbInterpret::<1>::new("", "r", "r").unwrap();
    assert_eq!(cb.step(), StepState::Finished);
    assert_eq!(cb.run_all(), FinishState::Finished(1));
}

#[test]
fn the_end_of_the_outermost_band_crashes() {
    let mut cb = CbInterpret::<1>::new("q>", "r", "b").unwrap();
    let mut cb2 = CbInterpret::<2>::new("n>", "r,n", "n,r").unwrap();
    assert_eq!(cb.run_all(), FinishState::Crashed(1));
    assert_eq!(cb2.step(), StepState::Normal);
    assert_eq!(cb2.step(), StepState::Crashed);
    assert_eq!(cb2.ip(), (0, 1));
    assert_eq!(cb2.dp(), 1);
}

#[test]
fn empty_crane_on_empty_stack_takes_nothing() {
    let mut cb = CbInterpret::<2>::new("q.", "n,r", "r,n").unwrap();
    assert_eq!(cb.step(), StepState::Normal);
    assert_eq!(cb.crane(), Box::Empty);
    assert_eq!(cb.data, [0, 3]);
    assert_eq!(cb.ip(), (0, 1));
}

#[test]
fn drop_on_a_full_stack_crashes_and_writes_nothing() {
    let mut cb = CbInterpret::<2>::new("q.q>q.", "r,bbbbbb", "n,n").unwrap();
    let full = cb.data[1];
    assert_eq!(get_top(full), Some(5));
    assert_eq!(cb.run_all(), FinishState::Crashed(3));
    assert_eq!(cb.data, [0, full]);
    assert_eq!(cb.crane(), Box::Red);
}

#[test]
fn a_failed_guard_skips_the_instruction() {
    let mut cb = CbInterpret::<2>::new("a>n.b>r>", "r,n", "n,r").unwrap();
    assert_eq!(cb.step(), StepState::Normal);
    assert_eq!((cb.dp(), cb.ip()), (0, (0, 1)));
    assert_eq!(cb.step(), StepState::Normal);
    assert_eq!(cb.crane(), Box::Red);
    assert_eq!(cb.step(), StepState::Normal);
    assert_eq!((cb.dp(), cb.ip()), (0, (0, 3)));
    assert_eq!(cb.step(), StepState::Normal);
    assert_eq!((cb.dp(), cb.ip()), (1, (0, 4)));
}

#[test]
fn a_call_saves_the_pointer_and_the_end_of_the_band_takes_it_up() {
    let mut cb = CbInterpret::<2>::new("n2q>,q.", "r,n", "n,r").unwrap();
    assert_eq!(cb.step(), StepState::Normal);
    assert_eq!((cb.ip(), cb.depth()), ((1, 0), 1));
    assert_eq!(cb.step(), StepState::Normal);
    assert_eq!(cb.crane(), Box::Red);
    assert_eq!(cb.step(), StepState::Normal);
    assert_eq!((cb.ip(), cb.depth()), ((0, 0), 0));
    assert_eq!(cb.step(), StepState::Normal);
    assert_eq!(cb.ip(), (0, 1));
    assert_eq!(cb.step(), StepState::Normal);
    assert_eq!(cb.dp(), 1);
}

#[test]
fn a_program_that_never_ends_is_limited() {
    let mut cb = CbInterpret::<1>::new("q1", "r", "b").unwrap();
    assert_eq!(cb.run_all(), FinishState::Limited(100));
    assert_eq!(cb.depth(), 99);
}

#[test]
fn classification_is_the_same_when_made_twice() {
    let mut cb = CbInterpret::<2>::new("q>q>", "r,n", "n,r").unwrap();
    let first = cb.step();
    assert_eq!(cb.classify(false), first);
    assert_eq!(cb.classify(false), first);
    let second = cb.step();
    assert_eq!(second, StepState::Crashed);
    assert_eq!(cb.classify(false), StepState::Crashed);
    assert_eq!(cb.classify(false), StepState::Crashed);
    let done = CbInterpret::<1>::new("", "g", "g").unwrap();
    assert_eq!(done.classify(true), StepState::Finished);
    assert_eq!(done.classify(true), StepState::Finished);
}

#[test]
fn reset_restores_the_start_of_a_run() {
    let mut cb = CbInterpret::<2>::new("q.q>q1", "gy,n", "n,n").unwrap();
    cb.step();
    cb.step();
    cb.step();
    assert_eq!((cb.crane(), cb.dp(), cb.depth()), (Box::Yellow, 1, 1));
    cb.reset();
    assert_eq!((cb.crane(), cb.dp(), cb.depth(), cb.ip()), (Box::Empty, 0, 0, (0, 0)));
    assert_eq!(cb.data, [2 + (4 << 3), 0]);
}

#[test]
fn texts_with_errors_are_refused() {
    assert_eq!(CbInterpret::<1>::new("x>", "r", "r").err(), Some(EncodingError::UnknownToken));
    assert_eq!(CbInterpret::<1>::new("qx", "r", "r").err(), Some(EncodingError::UnknownToken));
    assert_eq!(CbInterpret::<1>::new("q", "r", "r").err(), Some(EncodingError::UnknownToken));
    assert_eq!(CbInterpret::<1>::new("q,>", "r", "r").err(), Some(EncodingError::UnknownToken));
    assert_eq!(CbInterpret::<1>::new("q>", "x", "r").err(), Some(EncodingError::UnknownToken));
    assert_eq!(CbInterpret::<1>::new("q>", "r", "R").err(), Some(EncodingError::UnknownToken));
    assert_eq!(
        CbInterpret::<1>::new("q>", "rrrrrrr", "r").err(),
        Some(EncodingError::StackOverflow)
    );
    assert_eq!(
        CbInterpret::<1>::new("q>q>q>q>q>q>q>q>q>", "r", "r").err(),
        Some(EncodingError::ProgramOverflow)
    );
    assert_eq!(
        CbInterpret::<1>::new(",,,,", "r", "r").err(),
        Some(EncodingError::ProgramOverflow)
    );
    assert_eq!(CbInterpret::<1>::new("", "nr", "r").err(), Some(EncodingError::FloatingBox));
    assert_eq!(CbInterpret::<2>::new("", "r,n", "r").err(), Some(EncodingError::WidthMismatch));
    assert_eq!(CbInterpret::<2>::new("", "r", "r,n").err(), Some(EncodingError::WidthMismatch));
    assert_eq!(CbInterpret::<3>::new("", "r,n,", "r,").err(), Some(EncodingError::WidthMismatch));
    assert_eq!(CbInterpret::<1>::new("zz", "x", "r,r").err(), Some(EncodingError::UnknownToken));
    assert_eq!(CbInterpret::<1>::new("", "r,n", "x").err(), Some(EncodingError::UnknownToken));
    assert_eq!(CbInterpret::<1>::new("", "r,x", "r").err(), Some(EncodingError::UnknownToken));
    assert_eq!(
        CbInterpret::<1>::new("", "r,bbbbbbb", "r").err(),
        Some(EncodingError::StackOverflow)
    );
    assert_eq!(CbInterpret::<1>::new("", "r", "r,nb").err(), Some(EncodingError::FloatingBox));
    assert!(CbInterpret::<3>::new("q>q>q>q>q>q>q>q>,,,b4", "rrrrrr,,rn", "n,bgry,").is_ok());
}

#[test]
fn error_messages() {
    assert_eq!(EncodingError::UnknownToken.message(), "unknown token");
    assert_eq!(EncodingError::StackOverflow.message(), "more than six boxes on a stack");
    assert_eq!(
        EncodingError::ProgramOverflow.message(),
        "more than four bands or eight instructions in a band"
    );
    assert_eq!(EncodingError::FloatingBox.message(), "a box above an empty slot");
    assert_eq!(EncodingError::WidthMismatch.message(), "fewer stacks than the machine is wide");
}

#[test]
fn program_text_is_packed_six_bits_to_an_instruction() {
    let words = read_program("q.a>q1,n<,,y4").unwrap();
    assert_eq!(words[0], (8 + 3) | ((48 + 1) << 6) | ((8 + 4) << 12));
    assert_eq!(words[1], 56 + 2);
    assert_eq!(words[2], 0);
    assert_eq!(words[3], 40 + 7);
    assert_eq!(read_program("").unwrap(), [0, 0, 0, 0]);
    assert_eq!(read_program("b2g3r.").unwrap()[0], (16 + 5) | ((24 + 6) << 6) | ((32 + 3) << 12));
}

#[test]
fn board_text_is_packed_three_bits_to_a_box() {
    assert_eq!(read_board::<4>("n,rrb,n,rbb").unwrap(), [0, 3 | (3 << 3) | (1 << 6), 0, 3 | (1 << 3) | (1 << 6)]);
    assert_eq!(read_board::<2>("bgryrb,").unwrap(), [1 | (2 << 3) | (3 << 6) | (4 << 9) | (3 << 12) | (1 << 15), 0]);
    assert_eq!(read_board::<1>("gnn").unwrap(), [2]);
    assert_eq!(read_board::<1>("").unwrap(), [0]);
}

#[test]
fn top_of_a_stack_is_its_highest_occupied_slot() {
    assert_eq!(get_top(0), None);
    assert_eq!(get_top(4), Some(0));
    assert_eq!(get_top(1), Some(0));
    assert_eq!(get_top(1 << 3), Some(1));
    assert_eq!(get_top(3 | (3 << 3) | (1 << 6)), Some(2));
    assert_eq!(get_top(4 << 15), Some(5));
    assert_eq!(get_top(1 << 15), Some(5));
    assert_eq!(get_top(1 << 14), Some(4));
    assert_eq!(get_top(0x3ffff), Some(5));
    assert_eq!(get_top(1 << 18), None);
    for w in 0u32..0x1000 {
        let mut scan = None;
        for i in (0u8..6).rev() {
            if (w >> (3 * i)) & 7 != 0 {
                scan = Some(i);
                break;
            }
        }
        assert_eq!(get_top(w), scan);
    }
}

#[test]
fn boxes_go_on_and_off_the_top() {
    assert_eq!(pick_up(0), (0, Box::Empty));
    assert_eq!(pick_up(3 | (1 << 3)), (3, Box::Blue));
    assert_eq!(pick_up(4), (0, Box::Yellow));
    assert_eq!(put_down(0, Box::Green), Some(2));
    assert_eq!(put_down(2, Box::Red), Some(2 | (3 << 3)));
    let full = 1 | (1 << 3) | (1 << 6) | (1 << 9) | (1 << 12) | (1 << 15);
    assert_eq!(put_down(full, Box::Red), None);
    assert_eq!(pick_up(full), (full & 0x7fff, Box::Blue));
    assert_eq!(set_slot(full, 2, Box::Yellow), 1 | (1 << 3) | (4 << 6) | (1 << 9) | (1 << 12) | (1 << 15));
    assert_eq!(get_slot(full, 5), Box::Blue);
    assert_eq!(get_slot(4 << 3, 1), Box::Yellow);
    assert_eq!(get_slot(4 << 3, 0), Box::Empty);
}

#[test]
fn a_band_gives_back_what_was_packed_into_it() {
    let instrs = vec![
        Instruction::Real(IfColor::Always, OpCode::Down),
        Instruction::Real(IfColor::Any, OpCode::Right),
        Instruction::Real(IfColor::Empty, OpCode::Left),
        Instruction::Real(IfColor::Blue, OpCode::Goto1),
        Instruction::Real(IfColor::Green, OpCode::Goto2),
        Instruction::Real(IfColor::Red, OpCode::Goto3),
        Instruction::Real(IfColor::Yellow, OpCode::Goto4),
    ];
    let w = encode_band(&instrs).unwrap();
    for (i, ins) in instrs.iter().enumerate() {
        assert_eq!(fetch(w, i as u8), *ins);
    }
    assert_eq!(fetch(w, 7), Instruction::NoInstruction);
    assert_eq!(fetch(w, 8), Instruction::NoInstruction);
    assert_eq!(fetch(w, 200), Instruction::NoInstruction);
    assert_eq!(w, read_program("q.a>n<b1g2r3y4").unwrap()[0]);
    assert_eq!(encode_band(&vec![]), Some(0));
    assert_eq!(encode_band(&vec![Instruction::NoInstruction; 9]), None);
    let eight = vec![Instruction::Real(IfColor::Empty, OpCode::Goto4); 8];
    assert_eq!(encode_band(&eight), Some((1u64 << 48) - 1));
}

#[test]
fn the_zero_pattern_is_no_instruction() {
    assert_eq!(Instruction::from_bits(0), Instruction::NoInstruction);
    assert_eq!(Instruction::from_bits(5), Instruction::NoInstruction);
    assert_eq!(Instruction::from_bits(8), Instruction::Real(IfColor::Always, OpCode::Nop));
    assert_eq!(Instruction::from_bits(11), Instruction::Real(IfColor::Always, OpCode::Down));
    assert_eq!(Instruction::Real(IfColor::Empty, OpCode::Goto4).to_bits(), 63);
    assert_eq!(Instruction::NoInstruction.to_bits(), 0);
    assert_eq!(set_field(0, 1, 63), 63 << 6);
    assert_eq!(set_field(u64::MAX, 7, 0), u64::MAX & !(63 << 42));
}

#[test]
fn guards_test_what_the_crane_holds() {
    assert!(IfColor::Always.matches_box(Box::Empty));
    assert!(IfColor::Always.matches_box(Box::Red));
    assert!(IfColor::Any.matches_box(Box::Blue));
    assert!(!IfColor::Any.matches_box(Box::Empty));
    assert!(IfColor::Empty.matches_box(Box::Empty));
    assert!(!IfColor::Empty.matches_box(Box::Green));
    assert!(IfColor::Yellow.matches_box(Box::Yellow));
    assert!(!IfColor::Yellow.matches_box(Box::Red));
    assert_eq!(Box::default(), Box::Empty);
    assert_eq!(Box::Empty.to_code(), 0);
}

#[test]
fn the_machine_is_drawn_as_text() {
    let mut cb = CbInterpret::<4>::new("q.a>q1", "n,rrb,n,rbb", "b,rr,bb,r").unwrap();
    assert_eq!(cb.print_crane(), " n");
    assert_eq!(cb.print_inst(), " q.a>q1, , , , ");
    assert_eq!(
        cb.print_data(),
        "| | | | |\n| | | | |\n| | | | |\n| |b| |b|\n| |r| |b|\n| |r| |r|\n"
    );
    let mut cb2 = CbInterpret::<2>::new("q>q.,y<", "n,g", "g,n").unwrap();
    cb2.step();
    cb2.step();
    assert_eq!(cb2.print_crane(), "   g");
    assert_eq!(cb2.print_inst(), " q>q., y<, , , ");
    assert_eq!(cb.step(), StepState::Normal);
}

#[test]
fn bits_without_a_guard_or_without_an_action_end_the_band() {
    let mut cb = CbInterpret::<2>::new("", "r,n", "n,r").unwrap();
    assert_eq!(cb.try_band(1), FinishState::Crashed(1));
    assert_eq!((cb.dp(), cb.ip()), (0, (0, 0)));
    assert_eq!(cb.try_band(8), FinishState::Crashed(1));
    assert_eq!((cb.dp(), cb.ip()), (0, (0, 0)));
    assert_eq!(cb.try_band(48), FinishState::Crashed(2));
    assert_eq!((cb.dp(), cb.ip()), (0, (0, 1)));
    assert_eq!(cb.try_band(9), FinishState::Crashed(2));
    assert_eq!((cb.dp(), cb.ip()), (1, (0, 1)));
}

#[test]
fn next_goes_on_while_steps_end_normally() {
    let mut cb = CbInterpret::<3>::new("q>q>q>", "r,n,n", "n,n,r").unwrap();
    assert_eq!(cb.next(), Some(true));
    assert_eq!(cb.next(), Some(true));
    assert_eq!(cb.next(), None);
    assert_eq!(cb.dp(), 3);
    let mut done = CbInterpret::<1>::new("q.", "n", "n").unwrap();
    assert_eq!(done.next(), None);
}

#[test]
fn the_machine_finds_the_top_of_a_stack() {
    assert_eq!(CbInterpret::<1>::get_top(0), None);
    assert_eq!(CbInterpret::<1>::get_top(3 | (1 << 3)), Some(1));
    assert_eq!(CbInterpret::<7>::get_top(2 << 15), Some(5));
}

#[test]
fn stacks_named_after_the_width_are_left_out() {
    let cb = CbInterpret::<1>::new("", "r,n", "r").unwrap();
    assert_eq!(cb.data, [3]);
    assert_eq!(cb.board(), cb.finish_state());
    let mut wide = CbInterpret::<2>::new("q.q>q.", "y,n,bb,g", "n,y,r").unwrap();
    assert_eq!(wide.data, [4, 0]);
    assert_eq!(wide.finish_state(), [0, 4]);
    assert_eq!(wide.run_all(), FinishState::Finished(3));
    assert_eq!(read_board::<2>("g,b,r").unwrap(), [2, 1]);
    assert_eq!(read_board::<1>("g,,,").unwrap(), [2]);
    assert_eq!(read_board::<3>("g,b").err(), Some(EncodingError::WidthMismatch));
    let none = CbInterpret::<0>::new("", "", "").unwrap();
    assert_eq!(none.classify(false), StepState::Finished);
}

#[test]
fn bits_above_the_eighth_slot_change_no_run() {
    let mut cb = CbInterpret::<2>::new("", "r,n", "n,r").unwrap();
    let band = 11 | (9 << 6) | (11 << 12);
    assert_eq!(cb.try_band(band), FinishState::Finished(3));
    assert_eq!(cb.try_band(band | (0xffff << 48)), FinishState::Finished(3));
    assert_eq!(cb.try_band(9 | (1 << 48)), cb.try_band(9));
    assert_eq!(fetch(u64::MAX, 8), Instruction::NoInstruction);
    assert_eq!(fetch(u64::MAX << 48, 7), Instruction::NoInstruction);
}
