use ya_advent_lib::vm_debugger::{DebugAction, DebugFocus, DebugKey, DebugRunState, DebuggerState};
use ya_advent_lib::vm_display::{Formatter, Token};
use ya_advent_lib::vm_shell::{
    apply_instruction_result, InstructionResult, RunResult, VMShell, CPU, VM,
};

/// A machine whose instructions are applied directly as outcomes.
struct EchoCpu;

impl CPU<char, i64, InstructionResult> for EchoCpu {
    fn execute_instruction(
        &self,
        vm: &mut VM<char, i64, InstructionResult>,
        i: &InstructionResult,
    ) -> InstructionResult {
        if let InstructionResult::Proceed = i {
            let v = vm.get_reg('a');
            vm.set_reg('a', v + 1);
        }
        *i
    }
}

#[test]
fn shell_runs_to_halt() {
    let program = vec![
        InstructionResult::Proceed,
        InstructionResult::Proceed,
        InstructionResult::Halt,
    ];
    let mut shell = VMShell::new(program, 0i64);
    let r = shell.run(&EchoCpu, 100);
    assert_eq!(r, Some(RunResult::Halt));
    assert_eq!(shell.vm.get_reg('a'), 2);
    assert_eq!(shell.vm.get_reg('b'), 0);
    shell.reset();
    assert_eq!(shell.vm.pc, 0);
    assert_eq!(shell.vm.get_reg('a'), 0);
}

#[test]
fn shell_steps_and_breaks() {
    let program = vec![
        InstructionResult::Break,
        InstructionResult::Error,
    ];
    let mut shell = VMShell::new(program, 0i64);
    assert_eq!(shell.step(&EchoCpu), RunResult::Break);
    assert_eq!(shell.vm.pc, 1);
    assert_eq!(shell.step(&EchoCpu), RunResult::Error);
    let mut empty: VMShell<char, i64, InstructionResult> = VMShell::new(vec![], 0);
    assert_eq!(empty.step(&EchoCpu), RunResult::Halt);
}

#[test]
fn shell_follows_jumps() {
    // Jump over the error straight to the halt.
    let program = vec![
        InstructionResult::JumpFwd(2),
        InstructionResult::Error,
        InstructionResult::Halt,
    ];
    let mut shell = VMShell::new(program, 0i64);
    assert_eq!(shell.run(&EchoCpu, 100), Some(RunResult::Halt));

    // A loop that never stops runs out of its step budget.
    let program = vec![InstructionResult::JumpBck(0)];
    let mut shell = VMShell::new(program, 0i64);
    assert_eq!(shell.run(&EchoCpu, 50), None);
}

#[test]
fn instruction_outcomes_move_the_counter() {
    assert_eq!(apply_instruction_result(4, InstructionResult::Proceed), (5, RunResult::Proceed));
    assert_eq!(apply_instruction_result(4, InstructionResult::Halt), (usize::MAX, RunResult::Halt));
    assert_eq!(apply_instruction_result(4, InstructionResult::Break), (5, RunResult::Break));
    assert_eq!(apply_instruction_result(4, InstructionResult::Error), (4, RunResult::Error));
    assert_eq!(
        apply_instruction_result(4, InstructionResult::JumpFwd(10)),
        (14, RunResult::Proceed)
    );
    assert_eq!(apply_instruction_result(4, InstructionResult::JumpBck(3)), (1, RunResult::Proceed));
    assert_eq!(
        apply_instruction_result(1, InstructionResult::JumpBck(3)),
        (usize::MAX - 1, RunResult::Proceed)
    );
}

#[test]
fn formatter_collects_tokens() {
    let mut f: Formatter<u32> = Formatter::new();
    f.add_opcode("add".to_string());
    f.add_register("a".to_string());
    f.add_integer(42);
    f.add_address(7);
    let tokens = f.get_tokens();
    assert_eq!(tokens.len(), 4);
    assert!(matches!(&tokens[0], Token::Opcode(s) if s == "add"));
    assert!(matches!(&tokens[1], Token::Register(s) if s == "a"));
    assert!(matches!(&tokens[2], Token::Integer(42)));
    assert!(matches!(&tokens[3], Token::Address(7)));
}

#[test]
fn debugger_state_machine() {
    let mut d = DebuggerState::new();
    assert_eq!(d.run_state, DebugRunState::Pause);

    // Letter keys drive the run mode.
    assert_eq!(d.handle_key(DebugKey::Char('r'), None, 10), DebugAction::Redraw);
    assert_eq!(d.run_state, DebugRunState::Run);
    assert_eq!(d.handle_key(DebugKey::Char('w'), None, 10), DebugAction::Nothing);
    assert_eq!(d.run_state, DebugRunState::Walk);
    assert_eq!(d.handle_key(DebugKey::Char('s'), None, 10), DebugAction::Step);
    assert_eq!(d.run_state, DebugRunState::Pause);
    assert_eq!(d.handle_key(DebugKey::Char('q'), None, 10), DebugAction::Quit);
    assert_eq!(d.handle_key(DebugKey::Char('h'), None, 10), DebugAction::Nothing);
    assert!(d.hex_mode);

    // The breakpoint box takes and releases focus.
    assert_eq!(d.handle_key(DebugKey::Char('b'), None, 10), DebugAction::Nothing);
    assert_eq!(d.focus, DebugFocus::BreakpointInput);
    assert_eq!(d.handle_key(DebugKey::Char('3'), None, 10), DebugAction::FeedInput);
    assert_eq!(d.handle_key(DebugKey::Enter, Some(3), 10), DebugAction::ResetInput);
    assert_eq!(d.focus, DebugFocus::Normal);
    assert!(d.has_breakpoint(3));

    // Entering the same address again removes the breakpoint.
    d.handle_key(DebugKey::Char('b'), None, 10);
    d.handle_key(DebugKey::Enter, Some(3), 10);
    assert!(!d.has_breakpoint(3));

    // An address outside the program is ignored.
    d.handle_key(DebugKey::Char('b'), None, 10);
    d.handle_key(DebugKey::Enter, Some(99), 10);
    assert!(!d.has_breakpoint(99));

    // Stepping onto a breakpoint pauses the run.
    d.toggle_breakpoint(5);
    d.cmd_run();
    d.apply_step_result(RunResult::Proceed, 5);
    assert_eq!(d.run_state, DebugRunState::Pause);
    assert!(d.breakpoint_hit);
    d.apply_step_result(RunResult::Halt, 6);
    assert_eq!(d.run_state, DebugRunState::Halt);
    assert!(d.is_halted());
    assert!(!d.should_step(true, true));
}
