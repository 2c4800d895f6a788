use vstd::prelude::*;
use crate::vm_shell::RunResult;

verus! {

/// What the debugger is doing between key presses.
#[derive(Clone, Copy, Eq, PartialEq, Structural, Debug)]
pub enum DebugRunState {
    Pause,
    Walk,
    Run,
    Halt,
    Error,
}

/// Where key presses currently go.
#[derive(Clone, Copy, Eq, PartialEq, Structural, Debug)]
pub enum DebugFocus {
    Normal,
    BreakpointInput,
}

/// A key press, reduced to what the debugger reacts to.
#[derive(Clone, Copy, Eq, PartialEq, Structural, Debug)]
pub enum DebugKey {
    Char(char),
    Enter,
    Esc,
    Other,
}

/// What the interface should do after the debugger handled a key press.
#[derive(Clone, Copy, Eq, PartialEq, Structural, Debug)]
pub enum DebugAction {
    Nothing,
    Quit,
    Step,
    Redraw,
    FeedInput,
    ResetInput,
}

/// The debugger's control state: run mode, breakpoint positions, display
/// base, and input focus. The interface performs the drawing, the timing and
/// the machine steps; every decision is made here.
pub struct DebuggerState {
    pub run_state: DebugRunState,
    pub hex_mode: bool,
    pub breakpoint_hit: bool,
    pub focus: DebugFocus,
    pub pc_breakpoints: Vec<usize>,
}

impl DebuggerState {
    /// No breakpoint position is listed twice.
    pub open spec fn wf(&self) -> bool {
        forall|a: int, b: int|
            0 <= a < b < self.pc_breakpoints@.len() ==> self.pc_breakpoints@[a]
                != self.pc_breakpoints@[b]
    }

    /// A paused debugger with no breakpoints, decimal display, and normal
    /// focus.
    pub fn new() -> (r: Self)
        ensures
            r.wf(),
            r.run_state == DebugRunState::Pause,
            !r.hex_mode,
            !r.breakpoint_hit,
            r.focus == DebugFocus::Normal,
            r.pc_breakpoints@.len() == 0,
    {
        DebuggerState {
            run_state: DebugRunState::Pause,
            hex_mode: false,
            breakpoint_hit: false,
            focus: DebugFocus::Normal,
            pc_breakpoints: Vec::new(),
        }
    }

    /// The machine can no longer advance.
    pub fn is_halted(&self) -> (r: bool)
        ensures
            r == (self.run_state == DebugRunState::Halt || self.run_state == DebugRunState::Error),
    {
        match self.run_state {
            DebugRunState::Halt => true,
            DebugRunState::Error => true,
            _ => false,
        }
    }

    /// Whether a breakpoint sits at `pc`.
    pub fn has_breakpoint(&self, pc: usize) -> (r: bool)
        ensures
            r == self.pc_breakpoints@.contains(pc),
    {
        let mut i: usize = 0;
        while i < self.pc_breakpoints.len()
            invariant
                i <= self.pc_breakpoints@.len(),
                forall|j: int| 0 <= j < i ==> self.pc_breakpoints@[j] != pc,
            decreases self.pc_breakpoints@.len() - i,
        {
            if self.pc_breakpoints[i] == pc {
                return true;
            }
            i = i + 1;
        }
        proof {
            assert(!self.pc_breakpoints@.contains(pc));
        }
        false
    }

    /// Adds a breakpoint at `pc`, or removes the one already there.
    pub fn toggle_breakpoint(&mut self, pc: usize)
        requires
            old(self).wf(),
        ensures
            final(self).wf(),
            final(self).run_state == old(self).run_state,
            final(self).hex_mode == old(self).hex_mode,
            final(self).breakpoint_hit == old(self).breakpoint_hit,
            final(self).focus == old(self).focus,
            forall|v: usize|
                #[trigger] final(self).pc_breakpoints@.contains(v) <==> (if v == pc {
                    !old(self).pc_breakpoints@.contains(pc)
                } else {
                    old(self).pc_breakpoints@.contains(v)
                }),
    {
        let ghost b0 = self.pc_breakpoints@;
        let mut i: usize = 0;
        while i < self.pc_breakpoints.len()
            invariant
                self == old(self),
                self.wf(),
                b0 == self.pc_breakpoints@,
                i <= b0.len(),
                forall|j: int| 0 <= j < i ==> b0[j] != pc,
            decreases b0.len() - i,
        {
            if self.pc_breakpoints[i] == pc {
                self.pc_breakpoints.remove(i);
                proof {
                    assert forall|v: usize| #[trigger]
                        self.pc_breakpoints@.contains(v) <==> (if v == pc {
                            !b0.contains(pc)
                        } else {
                            b0.contains(v)
                        }) by {
                        let s1 = self.pc_breakpoints@;
                        if s1.contains(v) {
                            let k = choose|k: int| 0 <= k < s1.len() && s1[k] == v;
                            if k < i {
                                assert(b0[k] == v);
                            } else {
                                assert(b0[k + 1] == v);
                            }
                        }
                        if v != pc && b0.contains(v) {
                            let k = choose|k: int| 0 <= k < b0.len() && b0[k] == v;
                            if k < i {
                                assert(s1[k] == v);
                            } else {
                                assert(s1[k - 1] == v);
                            }
                        }
                        if v == pc && !b0.contains(pc) {
                            assert(b0[i as int] == pc);
                        }
                    }
                }
                return ;
            }
            i = i + 1;
        }
        self.pc_breakpoints.push(pc);
        proof {
            assert forall|v: usize| #[trigger] self.pc_breakpoints@.contains(v) <==> (if v == pc {
                !b0.contains(pc)
            } else {
                b0.contains(v)
            }) by {
                let s1 = self.pc_breakpoints@;
                if v == pc {
                    assert(s1[s1.len() - 1] == pc);
                    assert(s1.contains(pc));
                }
                if v != pc {
                    if s1.contains(v) {
                        let k = choose|k: int| 0 <= k < s1.len() && s1[k] == v;
                        assert(b0[k] == v);
                    }
                    if b0.contains(v) {
                        let k = choose|k: int| 0 <= k < b0.len() && b0[k] == v;
                        assert(s1[k] == v);
                    }
                }
            }
        }
    }

    /// Switches to free running, unless the machine has stopped for good.
    pub fn cmd_run(&mut self)
        ensures
            *final(self) == (DebuggerState {
                run_state: if old(self).run_state == DebugRunState::Halt || old(self).run_state
                    == DebugRunState::Error {
                    old(self).run_state
                } else {
                    DebugRunState::Run
                },
                ..*old(self)
            }),
    {
        if !self.is_halted() {
            self.run_state = DebugRunState::Run;
        }
    }

    /// Switches to slow walking, unless the machine has stopped for good.
    pub fn cmd_walk(&mut self)
        ensures
            *final(self) == (DebuggerState {
                run_state: if old(self).run_state == DebugRunState::Halt || old(self).run_state
                    == DebugRunState::Error {
                    old(self).run_state
                } else {
                    DebugRunState::Walk
                },
                ..*old(self)
            }),
    {
        if !self.is_halted() {
            self.run_state = DebugRunState::Walk;
        }
    }

    /// Pauses, unless the machine has stopped for good.
    pub fn cmd_pause(&mut self)
        ensures
            *final(self) == (DebuggerState {
                run_state: if old(self).run_state == DebugRunState::Halt || old(self).run_state
                    == DebugRunState::Error {
                    old(self).run_state
                } else {
                    DebugRunState::Pause
                },
                ..*old(self)
            }),
    {
        if !self.is_halted() {
            self.run_state = DebugRunState::Pause;
        }
    }

    /// Whether the machine should take a step this turn: always while
    /// running, on request while paused, and on each elapsed tick while
    /// walking.
    pub fn should_step(&self, do_step: bool, tick_elapsed: bool) -> (r: bool)
        ensures
            r == match self.run_state {
                DebugRunState::Run => true,
                DebugRunState::Pause => do_step,
                DebugRunState::Walk => tick_elapsed,
                _ => false,
            },
    {
        match self.run_state {
            DebugRunState::Run => true,
            DebugRunState::Pause => do_step,
            DebugRunState::Walk => tick_elapsed,
            _ => false,
        }
    }

    /// Folds the outcome of one machine step into the control state: a break
    /// pauses at a breakpoint, a halt or an error stops for good, and plain
    /// progress pauses only when the new counter sits on a breakpoint.
    pub fn apply_step_result(&mut self, rr: RunResult, pc: usize)
        requires
            old(self).wf(),
        ensures
            final(self).wf(),
            final(self).hex_mode == old(self).hex_mode,
            final(self).focus == old(self).focus,
            final(self).pc_breakpoints == old(self).pc_breakpoints,
            match rr {
                RunResult::Break => final(self).run_state == DebugRunState::Pause && final(self).breakpoint_hit,
                RunResult::Halt => final(self).run_state == DebugRunState::Halt && final(self).breakpoint_hit == old(self).breakpoint_hit,
                RunResult::Error => final(self).run_state == DebugRunState::Error && final(self).breakpoint_hit == old(self).breakpoint_hit,
                RunResult::Proceed => if old(self).pc_breakpoints@.contains(pc) {
                    final(self).run_state == DebugRunState::Pause && final(self).breakpoint_hit
                } else {
                    final(self).run_state == old(self).run_state && final(self).breakpoint_hit
                        == old(self).breakpoint_hit
                },
            },
    {
        match rr {
            RunResult::Break => {
                self.run_state = DebugRunState::Pause;
                self.breakpoint_hit = true;
            },
            RunResult::Halt => {
                self.run_state = DebugRunState::Halt;
            },
            RunResult::Error => {
                self.run_state = DebugRunState::Error;
            },
            RunResult::Proceed => {
                if self.has_breakpoint(pc) {
                    self.run_state = DebugRunState::Pause;
                    self.breakpoint_hit = true;
                }
            },
        }
    }

    /// Reacts to one key press. While the breakpoint box has focus, `entered`
    /// carries the address parsed from it (if any): entering toggles that
    /// breakpoint when it lies inside the program and always returns focus;
    /// escape only returns focus; any other key is fed to the box. With
    /// normal focus, the letter keys drive the run mode, the display base,
    /// the breakpoint box, stepping, and quitting.
    pub fn handle_key(&mut self, key: DebugKey, entered: Option<usize>, program_len: usize) -> (r:
        DebugAction)
        requires
            old(self).wf(),
        ensures
            final(self).wf(),
            old(self).focus == DebugFocus::BreakpointInput ==> match key {
                DebugKey::Enter => final(self).focus == DebugFocus::Normal && r
                    == DebugAction::ResetInput && (match entered {
                    Some(n) => if n < program_len {
                        forall|v: usize|
                            #[trigger] final(self).pc_breakpoints@.contains(v) <==> (if v == n {
                                !old(self).pc_breakpoints@.contains(n)
                            } else {
                                old(self).pc_breakpoints@.contains(v)
                            })
                    } else {
                        final(self).pc_breakpoints == old(self).pc_breakpoints
                    },
                    None => final(self).pc_breakpoints == old(self).pc_breakpoints,
                }),
                DebugKey::Esc => final(self).focus == DebugFocus::Normal && r
                    == DebugAction::ResetInput && final(self).pc_breakpoints == old(self).pc_breakpoints,
                _ => *final(self) == *old(self) && r == DebugAction::FeedInput,
            },
            old(self).focus == DebugFocus::Normal ==> {
                let halted = old(self).run_state == DebugRunState::Halt || old(self).run_state
                    == DebugRunState::Error;
                match key {
                    DebugKey::Char(c) => {
                        if c == 's' {
                            *final(self) == (DebuggerState {
                                run_state: if halted {
                                    old(self).run_state
                                } else {
                                    DebugRunState::Pause
                                },
                                ..*old(self)
                            }) && r == DebugAction::Step
                        } else if c == 'r' {
                            *final(self) == (DebuggerState {
                                run_state: if halted {
                                    old(self).run_state
                                } else {
                                    DebugRunState::Run
                                },
                                ..*old(self)
                            }) && r == DebugAction::Redraw
                        } else if c == 'w' {
                            *final(self) == (DebuggerState {
                                run_state: if halted {
                                    old(self).run_state
                                } else {
                                    DebugRunState::Walk
                                },
                                ..*old(self)
                            }) && r == DebugAction::Nothing
                        } else if c == 'p' {
                            *final(self) == (DebuggerState {
                                run_state: if halted {
                                    old(self).run_state
                                } else {
                                    DebugRunState::Pause
                                },
                                ..*old(self)
                            }) && r == DebugAction::Nothing
                        } else if c == 'h' {
                            *final(self) == (DebuggerState {
                                hex_mode: !old(self).hex_mode,
                                ..*old(self)
                            }) && r == (if old(self).run_state == DebugRunState::Run {
                                DebugAction::Redraw
                            } else {
                                DebugAction::Nothing
                            })
                        } else if c == 'b' {
                            *final(self) == (DebuggerState {
                                run_state: if halted {
                                    old(self).run_state
                                } else {
                                    DebugRunState::Pause
                                },
                                focus: DebugFocus::BreakpointInput,
                                ..*old(self)
                            }) && r == DebugAction::Nothing
                        } else if c == 'q' {
                            *final(self) == *old(self) && r == DebugAction::Quit
                        } else {
                            *final(self) == *old(self) && r == DebugAction::Nothing
                        }
                    },
                    _ => *final(self) == *old(self) && r == DebugAction::Nothing,
                }
            },
    {
        if match self.focus {
            DebugFocus::BreakpointInput => true,
            DebugFocus::Normal => false,
        } {
            match key {
                DebugKey::Enter => {
                    match entered {
                        Option::Some(n) => {
                            if n < program_len {
                                self.toggle_breakpoint(n);
                            }
                        },
                        Option::None => {},
                    }
                    self.focus = DebugFocus::Normal;
                    DebugAction::ResetInput
                },
                DebugKey::Esc => {
                    self.focus = DebugFocus::Normal;
                    DebugAction::ResetInput
                },
                _ => DebugAction::FeedInput,
            }
        } else {
            match key {
                DebugKey::Char(c) => {
                    if c == 's' {
                        self.cmd_pause();
                        DebugAction::Step
                    } else if c == 'r' {
                        self.cmd_run();
                        DebugAction::Redraw
                    } else if c == 'w' {
                        self.cmd_walk();
                        DebugAction::Nothing
                    } else if c == 'p' {
                        self.cmd_pause();
                        DebugAction::Nothing
                    } else if c == 'h' {
                        self.hex_mode = !self.hex_mode;
                        if match self.run_state {
                            DebugRunState::Run => true,
                            _ => false,
                        } {
                            DebugAction::Redraw
                        } else {
                            DebugAction::Nothing
                        }
                    } else if c == 'b' {
                        self.cmd_pause();
                        self.focus = DebugFocus::BreakpointInput;
                        DebugAction::Nothing
                    } else if c == 'q' {
                        DebugAction::Quit
                    } else {
                        DebugAction::Nothing
                    }
                },
                _ => DebugAction::Nothing,
            }
        }
    }
}

} // verus!
