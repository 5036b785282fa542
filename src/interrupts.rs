//! The interrupt vector table that the kernel installs, and the rules of the
//! two chained interrupt controllers: which hardware line may interrupt, and
//! what an end-of-interrupt acknowledgement releases.
use vstd::prelude::*;

verus! {

/// Number of vectors in the table.
pub const VECTOR_COUNT: usize = 256;

/// Vector of the breakpoint exception.
pub const BREAKPOINT_VECTOR: u8 = 3;

/// Vector of the double-fault exception.
pub const DOUBLE_FAULT_VECTOR: u8 = 8;

/// Vector of the page-fault exception.
pub const PAGE_FAULT_VECTOR: u8 = 14;

/// Slot of the interrupt stack table that holds the double-fault stack.
pub const DOUBLE_FAULT_IST_INDEX: u16 = 0;

/// Vector of hardware line 0, on the primary controller.
pub const PIC_1_OFFSET: u8 = 32;

/// Vector of hardware line 8, on the secondary controller.
pub const PIC_2_OFFSET: u8 = 40;

/// Vector of the timer (line 0).
pub const TIMER_INTERRUPT_ID: u8 = 32;

/// Vector of the keyboard (line 1).
pub const KEYBOARD_INTERRUPT_ID: u8 = 33;

/// Number of hardware lines of the two controllers together.
pub const LINE_COUNT: u8 = 16;

/// Line of the primary controller that the secondary one is chained to.
pub const CASCADE_LINE: u8 = 2;

/// The handlers that the kernel installs.
#[derive(Debug, Clone, Copy, PartialEq, Eq, Structural)]
pub enum Handler {
    Breakpoint,
    DoubleFault,
    PageFault,
    Timer,
    Keyboard,
}

/// One slot of the vector table: its handler, if any, and the interrupt
/// stack table slot that it is forced to run on, if any.
#[derive(Debug, Clone, Copy, PartialEq, Eq, Structural)]
pub struct IdtEntry {
    pub handler: Option<Handler>,
    pub stack_index: Option<u16>,
}

/// A slot with no handler: its vector escalates to a double fault.
pub open spec fn missing_entry() -> IdtEntry {
    IdtEntry { handler: None, stack_index: None }
}

/// The slot that the kernel's table holds for vector `v`.
pub open spec fn kernel_entry(v: int) -> IdtEntry {
    if v == BREAKPOINT_VECTOR {
        IdtEntry { handler: Some(Handler::Breakpoint), stack_index: None }
    } else if v == DOUBLE_FAULT_VECTOR {
        IdtEntry { handler: Some(Handler::DoubleFault), stack_index: Some(DOUBLE_FAULT_IST_INDEX) }
    } else if v == PAGE_FAULT_VECTOR {
        IdtEntry { handler: Some(Handler::PageFault), stack_index: None }
    } else if v == TIMER_INTERRUPT_ID {
        IdtEntry { handler: Some(Handler::Timer), stack_index: None }
    } else if v == KEYBOARD_INTERRUPT_ID {
        IdtEntry { handler: Some(Handler::Keyboard), stack_index: None }
    } else {
        missing_entry()
    }
}

/// The 256 slots of the interrupt vector table.
pub struct InterruptDescriptorTable {
    entries: Vec<IdtEntry>,
}

impl InterruptDescriptorTable {
    /// The slots, by vector.
    pub closed spec fn entries(&self) -> Seq<IdtEntry> {
        self.entries@
    }

    /// A table with no handler in any slot.
    pub fn new() -> (t: InterruptDescriptorTable)
        ensures
            t.entries() == Seq::new(VECTOR_COUNT as nat, |v: int| missing_entry()),
    {
        let mut entries: Vec<IdtEntry> = Vec::new();
        let mut v: usize = 0;
        while v < VECTOR_COUNT
            invariant
                v <= VECTOR_COUNT,
                entries@.len() == v,
                forall|j: int| 0 <= j < v ==> entries@[j] == missing_entry(),
            decreases VECTOR_COUNT - v,
        {
            entries.push(IdtEntry { handler: None, stack_index: None });
            v = v + 1;
        }
        assert(entries@ =~= Seq::new(VECTOR_COUNT as nat, |v: int| missing_entry()));
        InterruptDescriptorTable { entries }
    }

    /// The slot of vector `v`.
    pub fn entry(&self, v: u8) -> (r: IdtEntry)
        requires
            self.entries().len() == VECTOR_COUNT,
        ensures
            r == self.entries()[v as int],
    {
        self.entries[v as usize]
    }

    /// Installs `handler` in the slot of vector `v`, with no forced stack.
    pub fn set_handler(&mut self, v: u8, handler: Handler)
        requires
            old(self).entries().len() == VECTOR_COUNT,
        ensures
            final(self).entries() == old(self).entries().update(
                v as int,
                IdtEntry { handler: Some(handler), stack_index: None },
            ),
    {
        self.entries.set(v as usize, IdtEntry { handler: Some(handler), stack_index: None });
    }

    /// Forces the handler of vector `v` to run on interrupt stack table slot
    /// `index`.
    pub fn set_stack_index(&mut self, v: u8, index: u16)
        requires
            old(self).entries().len() == VECTOR_COUNT,
        ensures
            final(self).entries() == old(self).entries().update(
                v as int,
                IdtEntry { handler: old(self).entries()[v as int].handler, stack_index: Some(index) },
            ),
    {
        let e = self.entries[v as usize];
        self.entries.set(v as usize, IdtEntry { handler: e.handler, stack_index: Some(index) });
    }
}

/// The kernel's vector table: breakpoint, double fault (on its own stack),
/// page fault, timer and keyboard; every other vector is left empty.
pub fn init_idt() -> (t: InterruptDescriptorTable)
    ensures
        t.entries().len() == VECTOR_COUNT,
        forall|v: int| 0 <= v < VECTOR_COUNT ==> #[trigger] t.entries()[v] == kernel_entry(v),
{
    let mut t = InterruptDescriptorTable::new();
    t.set_handler(BREAKPOINT_VECTOR, Handler::Breakpoint);
    t.set_handler(DOUBLE_FAULT_VECTOR, Handler::DoubleFault);
    t.set_stack_index(DOUBLE_FAULT_VECTOR, DOUBLE_FAULT_IST_INDEX);
    t.set_handler(PAGE_FAULT_VECTOR, Handler::PageFault);
    t.set_handler(TIMER_INTERRUPT_ID, Handler::Timer);
    t.set_handler(KEYBOARD_INTERRUPT_ID, Handler::Keyboard);
    t
}

/// The line of the primary controller through which hardware line `line`
/// arrives: its own for lines 0 to 7, the cascade line for 8 to 15.
pub open spec fn primary_line(line: int) -> int {
    if line < 8 {
        line
    } else {
        CASCADE_LINE as int
    }
}

/// No line at or above priority `k` (lower index is higher priority) is in
/// service.
pub open spec fn clear_up_to(in_service: Seq<bool>, k: int) -> bool {
    forall|j: int| 0 <= j <= k ==> !#[trigger] in_service[j]
}

/// Index of the highest-priority line in service from `k` on, or the
/// length where none is.
pub open spec fn first_in_service(in_service: Seq<bool>, k: int) -> int
    decreases in_service.len() - k,
{
    if k < 0 || k >= in_service.len() {
        in_service.len() as int
    } else if in_service[k] {
        k
    } else {
        first_in_service(in_service, k + 1)
    }
}

/// What a non-specific end of interrupt does to one controller: its
/// highest-priority line in service leaves service.
pub open spec fn end_of_interrupt(in_service: Seq<bool>) -> Seq<bool> {
    let j = first_in_service(in_service, 0);
    if j < in_service.len() {
        in_service.update(j, false)
    } else {
        in_service
    }
}

/// The lines in service on both controllers.
pub struct ControllerState {
    pub primary: Seq<bool>,
    pub secondary: Seq<bool>,
}

/// Line `line` may interrupt now: nothing of the same or higher priority is
/// in service on the primary controller, nor, for a secondary line, on the
/// secondary one.
pub open spec fn deliverable(s: ControllerState, line: int) -> bool {
    &&& clear_up_to(s.primary, primary_line(line))
    &&& line >= 8 ==> clear_up_to(s.secondary, line - 8)
}

/// The controllers after line `line` was delivered to the CPU.
pub open spec fn delivered(s: ControllerState, line: int) -> ControllerState {
    ControllerState {
        primary: s.primary.update(primary_line(line), true),
        secondary: if line >= 8 {
            s.secondary.update(line - 8, true)
        } else {
            s.secondary
        },
    }
}

/// The controllers after the acknowledgement of vector `vector`: the
/// secondary one is told for vectors of its lines, the primary one for
/// vectors of any line, and nothing happens for other vectors.
pub open spec fn acknowledged(s: ControllerState, vector: int) -> ControllerState {
    ControllerState {
        primary: if PIC_1_OFFSET <= vector < PIC_1_OFFSET + LINE_COUNT {
            end_of_interrupt(s.primary)
        } else {
            s.primary
        },
        secondary: if PIC_2_OFFSET <= vector < PIC_2_OFFSET + 8 {
            end_of_interrupt(s.secondary)
        } else {
            s.secondary
        },
    }
}

/// Nothing is in service.
pub open spec fn idle(s: ControllerState) -> bool {
    &&& s.primary == Seq::new(8, |j: int| false)
    &&& s.secondary == Seq::new(8, |j: int| false)
}

/// The two chained interrupt controllers, with hardware lines 0 to 15 at
/// vectors 32 to 47, as far as delivery and acknowledgement go.
pub struct InterruptController {
    primary: Vec<bool>,
    secondary: Vec<bool>,
}

impl InterruptController {
    pub closed spec fn state(&self) -> ControllerState {
        ControllerState { primary: self.primary@, secondary: self.secondary@ }
    }

    pub closed spec fn wf(&self) -> bool {
        self.primary@.len() == 8 && self.secondary@.len() == 8
    }

    /// A well-formed controller pair tracks eight lines on each controller.
    pub proof fn lemma_wf(&self)
        requires
            self.wf(),
        ensures
            self.state().primary.len() == 8,
            self.state().secondary.len() == 8,
    {
    }

    /// Controllers just initialised: nothing in service.
    pub fn new() -> (c: InterruptController)
        ensures
            c.wf(),
            c.state().primary.len() == 8,
            c.state().secondary.len() == 8,
            idle(c.state()),
    {
        let c = InterruptController {
            primary: vec![false, false, false, false, false, false, false, false],
            secondary: vec![false, false, false, false, false, false, false, false],
        };
        assert(c.primary@ =~= Seq::new(8, |j: int| false));
        assert(c.secondary@ =~= Seq::new(8, |j: int| false));
        c
    }

    /// Line `line` is in service and not yet acknowledged.
    pub fn in_service(&self, line: u8) -> (r: bool)
        requires
            self.wf(),
            line < LINE_COUNT,
        ensures
            r == if line < 8 {
                self.state().primary[line as int]
            } else {
                self.state().secondary[line - 8]
            },
    {
        if line < 8 {
            self.primary[line as usize]
        } else {
            self.secondary[(line - 8) as usize]
        }
    }

    /// Hardware line `line` asks to interrupt. Where it may, it goes into
    /// service and its vector is returned; otherwise nothing changes.
    pub fn raise(&mut self, line: u8) -> (r: Option<u8>)
        requires
            old(self).wf(),
            line < LINE_COUNT,
        ensures
            final(self).wf(),
            final(self).state().primary.len() == 8,
            final(self).state().secondary.len() == 8,
            deliverable(old(self).state(), line as int) ==> {
                &&& r == Some((PIC_1_OFFSET + line) as u8)
                &&& final(self).state() == delivered(old(self).state(), line as int)
            },
            !deliverable(old(self).state(), line as int) ==> {
                &&& r == None::<u8>
                &&& final(self).state() == old(self).state()
            },
    {
        let p: u8 = if line < 8 {
            line
        } else {
            CASCADE_LINE
        };
        let mut j: u8 = 0;
        while j <= p
            invariant
                j <= p + 1,
                p < 8,
                self.wf(),
                p == primary_line(line as int),
                forall|k: int| 0 <= k < j ==> !self.primary@[k],
            decreases p + 1 - j,
        {
            if self.primary[j as usize] {
                return None;
            }
            j = j + 1;
        }
        if line >= 8 {
            let mut k: u8 = 0;
            while k <= line - 8
                invariant
                    8 <= line < 16,
                    k <= line - 7,
                    self.wf(),
                    forall|i: int| 0 <= i < k ==> !self.secondary@[i],
                decreases line - 7 - k,
            {
                if self.secondary[k as usize] {
                    return None;
                }
                k = k + 1;
            }
            self.secondary.set((line - 8) as usize, true);
        }
        self.primary.set(p as usize, true);
        proof {
            assert(self.state().primary == delivered(old(self).state(), line as int).primary);
            assert(self.state().secondary =~= delivered(old(self).state(), line as int).secondary);
        }
        Some(PIC_1_OFFSET + line)
    }

    /// The end-of-interrupt acknowledgement for vector `vector`.
    pub fn notify_end_of_interrupt(&mut self, vector: u8)
        requires
            old(self).wf(),
        ensures
            final(self).wf(),
            final(self).state().primary.len() == 8,
            final(self).state().secondary.len() == 8,
            final(self).state() == acknowledged(old(self).state(), vector as int),
    {
        if PIC_1_OFFSET <= vector && vector < PIC_1_OFFSET + LINE_COUNT {
            if PIC_2_OFFSET <= vector && vector < PIC_2_OFFSET + 8 {
                clear_first(&mut self.secondary);
            }
            clear_first(&mut self.primary);
        }
    }
}

/// Takes the highest-priority line in service out of service.
fn clear_first(in_service: &mut Vec<bool>)
    ensures
        final(in_service)@ == end_of_interrupt(old(in_service)@),
        final(in_service)@.len() == old(in_service)@.len(),
{
    let mut j: usize = 0;
    while j < in_service.len()
        invariant
            j <= in_service@.len(),
            in_service@ == old(in_service)@,
            first_in_service(in_service@, 0) == first_in_service(in_service@, j as int),
        decreases in_service@.len() - j,
    {
        if in_service[j] {
            in_service.set(j, false);
            return;
        }
        j = j + 1;
    }
}

/// An acknowledged interrupt gives its place back: from idle controllers
/// any line is delivered, and acknowledging its vector makes them idle
/// again, so that each of any number of interrupts that is acknowledged
/// leaves room for the next.
pub proof fn lemma_acknowledged_interrupt_restores(s: ControllerState, line: int)
    requires
        idle(s),
        0 <= line < LINE_COUNT,
    ensures
        deliverable(s, line),
        idle(acknowledged(delivered(s, line), PIC_1_OFFSET + line)),
{
    let d = delivered(s, line);
    let a = acknowledged(d, PIC_1_OFFSET + line);
    lemma_first_in_service_single(d.primary, primary_line(line));
    assert(a.primary =~= Seq::new(8, |j: int| false));
    if line >= 8 {
        lemma_first_in_service_single(d.secondary, line - 8);
    }
    assert(a.secondary =~= Seq::new(8, |j: int| false));
}

/// A missed acknowledgement starves the lines below: while a delivered line
/// is not acknowledged, no line of the same or lower priority on the
/// primary controller can interrupt.
pub proof fn lemma_missing_acknowledgement_blocks(s: ControllerState, line: int, other: int)
    requires
        s.primary.len() == 8,
        s.secondary.len() == 8,
        0 <= line < LINE_COUNT,
        0 <= other < LINE_COUNT,
        primary_line(other) >= primary_line(line),
    ensures
        !deliverable(delivered(s, line), other),
{
    let d = delivered(s, line);
    assert(d.primary[primary_line(line)]);
}

/// In a sequence with exactly one line in service, that line is the first.
proof fn lemma_first_in_service_single(s: Seq<bool>, k: int)
    requires
        0 <= k < s.len(),
        s[k],
        forall|j: int| 0 <= j < s.len() && j != k ==> !s[j],
    ensures
        first_in_service(s, 0) == k,
{
    lemma_first_from(s, 0, k);
}

proof fn lemma_first_from(s: Seq<bool>, i: int, k: int)
    requires
        0 <= i <= k < s.len(),
        s[k],
        forall|j: int| 0 <= j < s.len() && j != k ==> !s[j],
    ensures
        first_in_service(s, i) == k,
    decreases k - i,
{
    if i < k {
        lemma_first_from(s, i + 1, k);
    }
}

} // verus!
