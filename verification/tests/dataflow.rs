use amiga_disasm::analyze_entries;
use amiga_disasm::dataflow::{
    forward, forward_with_schedule, Domain, Flow, ForwardResult, NoLog, Schedule, View,
};
use amiga_disasm::decoded::{DecodedInstruction, DecodedView};

#[derive(Clone, Debug, Eq, PartialEq)]
enum Exact {
    Unknown,
    Value(u8),
}

#[derive(Clone, Debug, Eq, PartialEq)]
struct NeverConverges(bool);

impl View for NeverConverges {
    type V = bool;

    fn view(&self) -> bool {
        self.0
    }
}

impl Domain for NeverConverges {
    fn wf(&self) -> bool {
        true
    }

    fn joined(stored: bool, _: bool) -> (bool, bool) {
        (!stored, true)
    }

    fn join(&mut self, _: &Self) -> bool {
        self.0 = !self.0;
        true
    }

    fn duplicate(&self) -> Self {
        self.clone()
    }
}

impl View for Exact {
    type V = Option<u8>;

    fn view(&self) -> Option<u8> {
        match self {
            Exact::Unknown => None,
            Exact::Value(value) => Some(*value),
        }
    }
}

impl Domain for Exact {
    fn wf(&self) -> bool {
        true
    }

    fn joined(stored: Option<u8>, incoming: Option<u8>) -> (Option<u8>, bool) {
        if stored == incoming || stored.is_none() {
            (stored, false)
        } else {
            (None, true)
        }
    }

    fn join(&mut self, incoming: &Self) -> bool {
        if self == incoming || matches!(self, Self::Unknown) {
            return false;
        }
        *self = Self::Unknown;
        true
    }

    fn duplicate(&self) -> Self {
        self.clone()
    }
}

/// Assigns 7 at the instructions at 4 and 8.
struct Assigning;

impl Flow for Assigning {
    type State = Exact;
    type Log = NoLog;

    fn wf(&self) -> bool {
        true
    }

    fn keeps(&self, _: DecodedView) -> bool {
        true
    }

    fn entered(&self, _: u32, _: DecodedView, state: Option<u8>) -> Option<u8> {
        state
    }

    fn noted_entering(&self, _: DecodedView, _: Option<u8>, _: ()) {}

    fn transferred(&self, decoded: DecodedView, state: Option<u8>) -> Option<u8> {
        if matches!(decoded.address, 4 | 8) { Some(7) } else { state }
    }

    fn noted_leaving(&self, _: DecodedView, _: Option<u8>, _: ()) {}

    fn looks_at(&self, _: &DecodedInstruction) -> bool {
        true
    }

    fn enter(&self, _: u32, _: &DecodedInstruction, _: &mut Exact, _: &mut NoLog) {}

    fn transfer(&self, decoded: &DecodedInstruction, state: &mut Exact, _: &mut NoLog) {
        if matches!(decoded.address, 4 | 8) {
            *state = Exact::Value(7);
        }
    }
}

struct Restless;

impl Flow for Restless {
    type State = NeverConverges;
    type Log = NoLog;

    fn wf(&self) -> bool {
        true
    }

    fn keeps(&self, _: DecodedView) -> bool {
        true
    }

    fn entered(&self, _: u32, _: DecodedView, state: bool) -> bool {
        state
    }

    fn noted_entering(&self, _: DecodedView, _: bool, _: ()) {}

    fn transferred(&self, _: DecodedView, state: bool) -> bool {
        state
    }

    fn noted_leaving(&self, _: DecodedView, _: bool, _: ()) {}

    fn looks_at(&self, _: &DecodedInstruction) -> bool {
        true
    }

    fn enter(&self, _: u32, _: &DecodedInstruction, _: &mut NeverConverges, _: &mut NoLog) {}

    fn transfer(&self, _: &DecodedInstruction, _: &mut NeverConverges, _: &mut NoLog) {}
}

fn joined_value(schedule: Schedule) -> ForwardResult<Exact> {
    // TST.W D1 ; BEQ.S right ; MOVEQ #7,D0 ; BRA.S join ;
    // right: MOVEQ #7,D0 ; join: RTS
    let code = [
        0x4a, 0x41, 0x67, 0x04, 0x70, 0x07, 0x60, 0x02, 0x70, 0x07, 0x4e, 0x75,
    ];
    let analysis = analyze_entries(&code, &[0]);
    forward_with_schedule(
        &Assigning,
        &analysis,
        0,
        Exact::Unknown,
        &mut NoLog,
        schedule,
    )
}

#[test]
fn block_visitation_order_does_not_change_the_fixpoint() {
    let ascending = joined_value(Schedule::Ascending);
    let descending = joined_value(Schedule::Descending);
    assert!(!ascending.exhausted);
    assert!(!descending.exhausted);
    for address in [0, 2, 4, 6, 8, 10] {
        assert_eq!(ascending.before.get(address), descending.before.get(address));
    }
    assert_eq!(ascending.before.len(), descending.before.len());
    assert_eq!(ascending.before.get(10), Some(&Exact::Value(7)));
}

#[test]
fn a_non_converging_domain_is_stopped_by_the_work_bound() {
    // BRA.S 0: one self-looping block. A deliberately invalid domain that
    // claims every join changed must be refused rather than run forever.
    let analysis = analyze_entries(&[0x60, 0xfe], &[0]);
    let result = forward(&Restless, &analysis, 0, NeverConverges(false), &mut NoLog);
    assert!(result.exhausted);
}
