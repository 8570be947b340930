//! Input bookkeeping for the immediate-mode UI: which modifier keys and
//! window focus changed since the last frame, how key and mouse button
//! presses become events, which mouse cursor to show, and how clipboard
//! text is made fit for a C string.
use vstd::prelude::*;

verus! {

/// What the last frame saw of the window focus and the modifier keys.
#[derive(Clone, Copy, Debug, PartialEq, Eq, Structural)]
pub struct FrameState {
    pub is_window_focused: bool,
    pub is_control_pressed: bool,
    pub is_shift_pressed: bool,
    pub is_alt_pressed: bool,
    pub is_super_pressed: bool,
}

/// An event handed on to the UI.
#[derive(Clone, Copy, Debug, PartialEq, Eq, Structural)]
pub enum InputEvent {
    Focus(bool),
    ModCtrl(bool),
    ModShift(bool),
    ModAlt(bool),
    ModSuper(bool),
}

/// The event for one flag, when it changed.
pub open spec fn change(before: bool, now: bool, e: InputEvent) -> Seq<InputEvent> {
    if before != now {
        seq![e]
    } else {
        Seq::empty()
    }
}

/// The events for everything that changed, in the order focus, control,
/// shift, alt, super.
pub open spec fn frame_changes(before: FrameState, now: FrameState) -> Seq<InputEvent> {
    change(before.is_window_focused, now.is_window_focused, InputEvent::Focus(now.is_window_focused))
        + change(
        before.is_control_pressed,
        now.is_control_pressed,
        InputEvent::ModCtrl(now.is_control_pressed),
    ) + change(
        before.is_shift_pressed,
        now.is_shift_pressed,
        InputEvent::ModShift(now.is_shift_pressed),
    ) + change(before.is_alt_pressed, now.is_alt_pressed, InputEvent::ModAlt(now.is_alt_pressed))
        + change(
        before.is_super_pressed,
        now.is_super_pressed,
        InputEvent::ModSuper(now.is_super_pressed),
    )
}

impl FrameState {
    /// The state of the first frame: focus as given, no modifier held.
    pub fn new(is_window_focused: bool) -> (s: Self)
        ensures
            s == (FrameState {
                is_window_focused,
                is_control_pressed: false,
                is_shift_pressed: false,
                is_alt_pressed: false,
                is_super_pressed: false,
            }),
    {
        FrameState {
            is_window_focused,
            is_control_pressed: false,
            is_shift_pressed: false,
            is_alt_pressed: false,
            is_super_pressed: false,
        }
    }

    /// Take in this frame's state; returns the events for what changed.
    pub fn sync(&mut self, now: FrameState) -> (events: Vec<InputEvent>)
        ensures
            *final(self) == now,
            events@ == frame_changes(*old(self), now),
    {
        let mut events: Vec<InputEvent> = Vec::new();
        let ghost before = *self;
        if self.is_window_focused != now.is_window_focused {
            events.push(InputEvent::Focus(now.is_window_focused));
            self.is_window_focused = now.is_window_focused;
        }
        if self.is_control_pressed != now.is_control_pressed {
            events.push(InputEvent::ModCtrl(now.is_control_pressed));
            self.is_control_pressed = now.is_control_pressed;
        }
        if self.is_shift_pressed != now.is_shift_pressed {
            events.push(InputEvent::ModShift(now.is_shift_pressed));
            self.is_shift_pressed = now.is_shift_pressed;
        }
        if self.is_alt_pressed != now.is_alt_pressed {
            events.push(InputEvent::ModAlt(now.is_alt_pressed));
            self.is_alt_pressed = now.is_alt_pressed;
        }
        if self.is_super_pressed != now.is_super_pressed {
            events.push(InputEvent::ModSuper(now.is_super_pressed));
            self.is_super_pressed = now.is_super_pressed;
        }
        assert(events@ =~= frame_changes(before, now));
        events
    }
}

/// Nothing is reported for a frame that looks like the last one, and a
/// second sync with the same state reports nothing.
pub proof fn law_sync_reports_only_changes(before: FrameState, now: FrameState)
    ensures
        frame_changes(before, now).len() == 0 <==> before == now,
        frame_changes(now, now).len() == 0,
{
    let c1 = change(before.is_window_focused, now.is_window_focused, InputEvent::Focus(now.is_window_focused));
    let c2 = change(before.is_control_pressed, now.is_control_pressed, InputEvent::ModCtrl(now.is_control_pressed));
    let c3 = change(before.is_shift_pressed, now.is_shift_pressed, InputEvent::ModShift(now.is_shift_pressed));
    let c4 = change(before.is_alt_pressed, now.is_alt_pressed, InputEvent::ModAlt(now.is_alt_pressed));
    let c5 = change(before.is_super_pressed, now.is_super_pressed, InputEvent::ModSuper(now.is_super_pressed));
    assert(frame_changes(before, now).len() == c1.len() + c2.len() + c3.len() + c4.len() + c5.len());
    assert(frame_changes(now, now) =~= Seq::<InputEvent>::empty());
}

/// Each event names the flag that changed, with its new value, and every
/// flag that changed is reported: focus as `Focus`, control as `ModCtrl`,
/// shift as `ModShift`, alt as `ModAlt`, super as `ModSuper`. One event is
/// reported per changed flag.
pub proof fn law_sync_names_each_change(before: FrameState, now: FrameState)
    ensures
        forall|b: bool|
            #[trigger] frame_changes(before, now).contains(InputEvent::Focus(b)) <==> (
            before.is_window_focused != now.is_window_focused && b == now.is_window_focused),
        forall|b: bool|
            #[trigger] frame_changes(before, now).contains(InputEvent::ModCtrl(b)) <==> (
            before.is_control_pressed != now.is_control_pressed && b == now.is_control_pressed),
        forall|b: bool|
            #[trigger] frame_changes(before, now).contains(InputEvent::ModShift(b)) <==> (
            before.is_shift_pressed != now.is_shift_pressed && b == now.is_shift_pressed),
        forall|b: bool|
            #[trigger] frame_changes(before, now).contains(InputEvent::ModAlt(b)) <==> (
            before.is_alt_pressed != now.is_alt_pressed && b == now.is_alt_pressed),
        forall|b: bool|
            #[trigger] frame_changes(before, now).contains(InputEvent::ModSuper(b)) <==> (
            before.is_super_pressed != now.is_super_pressed && b == now.is_super_pressed),
        frame_changes(before, now).len() == (if before.is_window_focused != now.is_window_focused {
            1int
        } else {
            0int
        }) + (if before.is_control_pressed != now.is_control_pressed {
            1int
        } else {
            0int
        }) + (if before.is_shift_pressed != now.is_shift_pressed {
            1int
        } else {
            0int
        }) + (if before.is_alt_pressed != now.is_alt_pressed {
            1int
        } else {
            0int
        }) + (if before.is_super_pressed != now.is_super_pressed {
            1int
        } else {
            0int
        }),
{
    let c1 = change(before.is_window_focused, now.is_window_focused, InputEvent::Focus(now.is_window_focused));
    let c2 = change(before.is_control_pressed, now.is_control_pressed, InputEvent::ModCtrl(now.is_control_pressed));
    let c3 = change(before.is_shift_pressed, now.is_shift_pressed, InputEvent::ModShift(now.is_shift_pressed));
    let c4 = change(before.is_alt_pressed, now.is_alt_pressed, InputEvent::ModAlt(now.is_alt_pressed));
    let c5 = change(before.is_super_pressed, now.is_super_pressed, InputEvent::ModSuper(now.is_super_pressed));
    let f = frame_changes(before, now);
    assert(f == c1 + c2 + c3 + c4 + c5);
    assert forall|e: InputEvent| #[trigger] f.contains(e) <==> (c1.contains(e) || c2.contains(e)
        || c3.contains(e) || c4.contains(e) || c5.contains(e)) by {
        lemma_concat_contains(c1, c2, e);
        lemma_concat_contains(c1 + c2, c3, e);
        lemma_concat_contains(c1 + c2 + c3, c4, e);
        lemma_concat_contains(c1 + c2 + c3 + c4, c5, e);
    }
    assert forall|e: InputEvent| #[trigger] c1.contains(e) <==> (before.is_window_focused
        != now.is_window_focused && e == InputEvent::Focus(now.is_window_focused)) by {
        if c1.contains(e) {
            assert(c1[0] == e);
        }
        if before.is_window_focused != now.is_window_focused && e == InputEvent::Focus(now.is_window_focused) {
            assert(c1[0] == e);
        }
    }
    assert forall|e: InputEvent| #[trigger] c2.contains(e) <==> (before.is_control_pressed
        != now.is_control_pressed && e == InputEvent::ModCtrl(now.is_control_pressed)) by {
        if c2.contains(e) {
            assert(c2[0] == e);
        }
        if before.is_control_pressed != now.is_control_pressed && e == InputEvent::ModCtrl(now.is_control_pressed) {
            assert(c2[0] == e);
        }
    }
    assert forall|e: InputEvent| #[trigger] c3.contains(e) <==> (before.is_shift_pressed
        != now.is_shift_pressed && e == InputEvent::ModShift(now.is_shift_pressed)) by {
        if c3.contains(e) {
            assert(c3[0] == e);
        }
        if before.is_shift_pressed != now.is_shift_pressed && e == InputEvent::ModShift(now.is_shift_pressed) {
            assert(c3[0] == e);
        }
    }
    assert forall|e: InputEvent| #[trigger] c4.contains(e) <==> (before.is_alt_pressed
        != now.is_alt_pressed && e == InputEvent::ModAlt(now.is_alt_pressed)) by {
        if c4.contains(e) {
            assert(c4[0] == e);
        }
        if before.is_alt_pressed != now.is_alt_pressed && e == InputEvent::ModAlt(now.is_alt_pressed) {
            assert(c4[0] == e);
        }
    }
    assert forall|e: InputEvent| #[trigger] c5.contains(e) <==> (before.is_super_pressed
        != now.is_super_pressed && e == InputEvent::ModSuper(now.is_super_pressed)) by {
        if c5.contains(e) {
            assert(c5[0] == e);
        }
        if before.is_super_pressed != now.is_super_pressed && e == InputEvent::ModSuper(now.is_super_pressed) {
            assert(c5[0] == e);
        }
    }
}

/// A concatenation holds what either part holds.
proof fn lemma_concat_contains(a: Seq<InputEvent>, b: Seq<InputEvent>, e: InputEvent)
    ensures
        (a + b).contains(e) <==> a.contains(e) || b.contains(e),
{
    if (a + b).contains(e) {
        let x = choose|x: int| 0 <= x < (a + b).len() && (a + b)[x] == e;
        if x < a.len() {
            assert(a[x] == e);
        } else {
            assert(b[x - a.len()] == e);
        }
    }
    if a.contains(e) {
        let x = choose|x: int| 0 <= x < a.len() && a[x] == e;
        assert((a + b)[x] == e);
    }
    if b.contains(e) {
        let x = choose|x: int| 0 <= x < b.len() && b[x] == e;
        assert((a + b)[a.len() + x] == e);
    }
}

/// A keyboard key: a release is reported before a press.
pub fn key_transition(released: bool, pressed: bool) -> (e: Option<bool>)
    ensures
        e == (if released {
            Some(false)
        } else if pressed {
            Some(true)
        } else {
            None
        }),
{
    if released {
        Some(false)
    } else if pressed {
        Some(true)
    } else {
        None
    }
}

/// A mouse or gamepad button: a press is reported before a release.
pub fn button_transition(pressed: bool, released: bool) -> (e: Option<bool>)
    ensures
        e == (if pressed {
            Some(true)
        } else if released {
            Some(false)
        } else {
            None
        }),
{
    if pressed {
        Some(true)
    } else if released {
        Some(false)
    } else {
        None
    }
}

/// What to do with the system mouse cursor.
#[derive(Clone, Copy, Debug, PartialEq, Eq, Structural)]
pub enum CursorAction {
    /// Leave it as it is.
    Keep,
    /// Hide it (the UI draws its own, or wants none).
    Hide,
    /// Show it with the shape at this index of the cursor table.
    Show(usize),
}

/// The cursor the UI now has and what to do, given the one it had: only
/// when the backend handles cursors and cursor changes are allowed, and
/// only when the wanted cursor differs or the UI draws its own.
pub open spec fn cursor_update_spec(
    current: Option<usize>,
    wanted: Option<usize>,
    has_mouse_cursors: bool,
    no_cursor_change: bool,
    draw_cursor: bool,
) -> (Option<usize>, CursorAction) {
    if has_mouse_cursors && !no_cursor_change && (current != wanted || draw_cursor) {
        if draw_cursor || wanted.is_none() {
            (wanted, CursorAction::Hide)
        } else {
            (wanted, CursorAction::Show(wanted.unwrap()))
        }
    } else {
        (current, CursorAction::Keep)
    }
}

/// Decide the cursor update (see `cursor_update_spec`).
pub fn cursor_update(
    current: Option<usize>,
    wanted: Option<usize>,
    has_mouse_cursors: bool,
    no_cursor_change: bool,
    draw_cursor: bool,
) -> (r: (Option<usize>, CursorAction))
    ensures
        r == cursor_update_spec(current, wanted, has_mouse_cursors, no_cursor_change, draw_cursor),
{
    if has_mouse_cursors && !no_cursor_change {
        if current != wanted || draw_cursor {
            match wanted {
                Some(c) if !draw_cursor => (wanted, CursorAction::Show(c)),
                _ => (wanted, CursorAction::Hide),
            }
        } else {
            (current, CursorAction::Keep)
        }
    } else {
        (current, CursorAction::Keep)
    }
}

/// Once the cursor has been set, asking again for the same one (without a
/// UI-drawn cursor) changes nothing.
pub proof fn law_cursor_settles(
    current: Option<usize>,
    wanted: Option<usize>,
    has_mouse_cursors: bool,
    no_cursor_change: bool,
)
    ensures
        ({
            let (next, _) = cursor_update_spec(
                current,
                wanted,
                has_mouse_cursors,
                no_cursor_change,
                false,
            );
            cursor_update_spec(next, wanted, has_mouse_cursors, no_cursor_change, false) == (
                next,
                CursorAction::Keep,
            )
        }),
{
}

/// The bytes other than NUL, in order.
pub open spec fn non_nul(bytes: Seq<u8>) -> Seq<u8> {
    bytes.filter(|b: u8| b != 0u8)
}

/// `non_nul` grows by one byte at a time.
proof fn lemma_non_nul_last(s: Seq<u8>)
    requires
        s.len() > 0,
    ensures
        non_nul(s) == (if s.last() != 0 {
            non_nul(s.drop_last()).push(s.last())
        } else {
            non_nul(s.drop_last())
        }),
{
    reveal(Seq::filter);
}

/// Text with its NUL bytes taken out, as a C string needs it.
pub fn without_nul(bytes: &[u8]) -> (r: Vec<u8>)
    ensures
        r@ == non_nul(bytes@),
{
    let mut r: Vec<u8> = Vec::new();
    let mut i: usize = 0;
    assert(bytes@.take(0) =~= Seq::<u8>::empty());
    proof {
        reveal(Seq::filter);
    }
    assert(r@ =~= non_nul(bytes@.take(0)));
    while i < bytes.len()
        invariant
            0 <= i <= bytes@.len(),
            r@ == non_nul(bytes@.take(i as int)),
        decreases bytes@.len() - i,
    {
        proof {
            assert(bytes@.take(i + 1).drop_last() =~= bytes@.take(i as int));
            lemma_non_nul_last(bytes@.take(i + 1));
        }
        if bytes[i] != 0 {
            r.push(bytes[i]);
        }
        i = i + 1;
    }
    assert(bytes@.take(i as int) =~= bytes@);
    r
}

/// The result holds no NUL byte, and text without NUL bytes comes back as
/// it is.
pub proof fn law_without_nul(bytes: Seq<u8>)
    ensures
        forall|i: int| 0 <= i < non_nul(bytes).len() ==> #[trigger] non_nul(bytes)[i] != 0,
        (forall|i: int| 0 <= i < bytes.len() ==> #[trigger] bytes[i] != 0) ==> non_nul(bytes)
            == bytes,
    decreases bytes.len(),
{
    if bytes.len() > 0 {
        law_without_nul(bytes.drop_last());
        lemma_non_nul_last(bytes);
        let prev = non_nul(bytes.drop_last());
        let cur = non_nul(bytes);
        assert forall|i: int| 0 <= i < cur.len() implies #[trigger] cur[i] != 0 by {
            if i < prev.len() {
                assert(cur[i] == prev[i]);
            }
        }
        if forall|i: int| 0 <= i < bytes.len() ==> #[trigger] bytes[i] != 0 {
            assert(forall|i: int|
                0 <= i < bytes.drop_last().len() ==> #[trigger] bytes.drop_last()[i] == bytes[i]);
            assert(bytes[bytes.len() - 1] != 0);
            assert(bytes.drop_last().push(bytes.last()) =~= bytes);
        }
    } else {
        reveal(Seq::filter);
        assert(non_nul(bytes) =~= bytes);
    }
}

} // verus!
