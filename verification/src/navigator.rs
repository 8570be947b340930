//! The view history of the application: a back stack and a forward (redo)
//! stack of views, each trimmed when it grows past a limit.
use vstd::prelude::*;

verus! {

/// What a slice view looks at: one face, or the pair of faces being cut.
#[derive(Clone, Copy, Debug, PartialEq, Eq, Structural)]
pub enum SliceThing {
    OneFace(usize),
    TwoFace(usize, usize),
}

/// A screen of the application.
#[derive(Clone, Copy, Debug, PartialEq, Eq, Structural)]
pub enum AppView {
    Main,
    Painter { face: usize },
    SliceView { face: SliceThing, idx: usize },
    NotFound,
}

/// A stack grows to at most this many views before it is trimmed.
pub const HISTORY_LIMIT: usize = 100;

/// How many of the oldest views a trim drops.
pub const HISTORY_TRIM: usize = 20;

/// The abstract state of a navigator: the views behind the current one
/// (`back`, whose last element is the current view) and the views that
/// "forward" would return to (`forward`, whose last element comes back first).
#[verifier::ext_equal]
pub struct History {
    pub back: Seq<AppView>,
    pub forward: Seq<AppView>,
}

/// A stack after one push: when it holds more than `HISTORY_LIMIT` views,
/// its oldest `HISTORY_TRIM` views are dropped.
pub open spec fn trimmed(s: Seq<AppView>) -> Seq<AppView> {
    if s.len() > HISTORY_LIMIT {
        s.skip(HISTORY_TRIM as int)
    } else {
        s
    }
}

/// The view on top of a stack, or `Main` when the stack is empty.
pub open spec fn top_view(s: Seq<AppView>) -> AppView {
    if s.len() > 0 {
        s.last()
    } else {
        AppView::Main
    }
}

/// A stack without its top element (an empty stack stays empty).
pub open spec fn popped(s: Seq<AppView>) -> Seq<AppView> {
    if s.len() > 0 {
        s.drop_last()
    } else {
        s
    }
}

/// The history after `push(view)`.
pub open spec fn push_history(h: History, view: AppView) -> History {
    History { back: trimmed(h.back.push(view)), forward: h.forward }
}

/// The history after `go_back()`: the current view moves onto the forward stack.
pub open spec fn back_history(h: History) -> History {
    if h.back.len() > 0 {
        History { back: h.back.drop_last(), forward: trimmed(h.forward.push(h.back.last())) }
    } else {
        h
    }
}

/// The history after `go_forward()`: the last view left by `go_back` is pushed again.
pub open spec fn forward_history(h: History) -> History {
    if h.forward.len() > 0 {
        History { back: trimmed(h.back.push(h.forward.last())), forward: h.forward.drop_last() }
    } else {
        h
    }
}

/// The history after `replace(view)`.
pub open spec fn replace_history(h: History, view: AppView) -> History {
    History { back: popped(h.back).push(view), forward: h.forward }
}

/// The history after `pop()`.
pub open spec fn pop_history(h: History) -> History {
    History { back: popped(h.back), forward: h.forward }
}

/// Both stacks are within the limit.
pub open spec fn bounded(h: History) -> bool {
    h.back.len() <= HISTORY_LIMIT && h.forward.len() <= HISTORY_LIMIT
}

/// After `push(view)` the current view is `view`, however long the stack was.
pub proof fn lemma_push_shows_view(h: History, view: AppView)
    ensures
        top_view(push_history(h, view).back) == view,
        push_history(h, view).back.len() > 0,
{
}

/// Going back and then forward restores both stacks, as long as neither
/// stack was trimmed on the way (the back stack is within the limit and the
/// forward stack has room for one more view).
pub proof fn lemma_back_then_forward(h: History)
    requires
        h.back.len() > 0,
        h.back.len() <= HISTORY_LIMIT,
        h.forward.len() < HISTORY_LIMIT,
    ensures
        forward_history(back_history(h)) == h,
{
    let b = back_history(h);
    assert(b.forward.drop_last() =~= h.forward);
    assert(b.back.push(b.forward.last()) =~= h.back);
}

/// Going forward and then back restores both stacks, as long as neither
/// stack was trimmed on the way.
pub proof fn lemma_forward_then_back(h: History)
    requires
        h.forward.len() > 0,
        h.forward.len() <= HISTORY_LIMIT,
        h.back.len() < HISTORY_LIMIT,
    ensures
        back_history(forward_history(h)) == h,
{
    let f = forward_history(h);
    assert(f.back.drop_last() =~= h.back);
    assert(f.forward.push(f.back.last()) =~= h.forward);
}

/// `pop` undoes `push` when the push did not trim the stack, and hands back
/// the pushed view.
pub proof fn lemma_push_then_pop(h: History, view: AppView)
    requires
        h.back.len() < HISTORY_LIMIT,
    ensures
        pop_history(push_history(h, view)) == h,
        top_view(push_history(h, view).back) == view,
{
    assert(h.back.push(view).drop_last() =~= h.back);
}

/// `replace` shows the new view and keeps the depth of a non-empty stack;
/// the forward stack is untouched.
pub proof fn lemma_replace_keeps_depth(h: History, view: AppView)
    ensures
        top_view(replace_history(h, view).back) == view,
        h.back.len() > 0 ==> replace_history(h, view).back.len() == h.back.len(),
        h.back.len() > 0 ==> replace_history(h, view).back.drop_last() == h.back.drop_last(),
        replace_history(h, view).forward == h.forward,
{
    if h.back.len() > 0 {
        assert(h.back.drop_last().push(view).drop_last() =~= h.back.drop_last());
    }
}

/// Trimming drops only the oldest views: the newest view stays on top, and a
/// stack one over the limit comes back under it.
pub proof fn lemma_trim_keeps_newest(s: Seq<AppView>)
    requires
        s.len() > 0,
    ensures
        trimmed(s).len() > 0,
        trimmed(s).last() == s.last(),
        s.len() <= HISTORY_LIMIT + 1 ==> trimmed(s).len() <= HISTORY_LIMIT,
        trimmed(s) == s.subrange(s.len() - trimmed(s).len(), s.len() as int),
{
    if s.len() > HISTORY_LIMIT {
        assert(s.skip(HISTORY_TRIM as int) =~= s.subrange(HISTORY_TRIM as int, s.len() as int));
    } else {
        assert(s =~= s.subrange(0, s.len() as int));
    }
}

/// Every navigation step keeps both stacks within the limit once they are.
pub proof fn lemma_bounded_preserved(h: History, view: AppView)
    requires
        bounded(h),
    ensures
        bounded(push_history(h, view)),
        bounded(back_history(h)),
        bounded(forward_history(h)),
        bounded(replace_history(h, view)),
        bounded(pop_history(h)),
{
}

/// Navigation state of the application. `Z` is the zoom box, which this type
/// only carries.
pub struct Navigator<Z> {
    stack: Vec<AppView>,
    redo: Vec<AppView>,
    pub clip: bool,
    pub zoom: Z,
}

impl<Z> Navigator<Z> {
    /// The back and forward stacks.
    pub closed spec fn history(&self) -> History {
        History { back: self.stack@, forward: self.redo@ }
    }

    /// Whether clipping is on.
    pub closed spec fn clip_on(&self) -> bool {
        self.clip
    }

    /// The zoom box carried by the navigator.
    pub closed spec fn zoom_box(&self) -> Z {
        self.zoom
    }

    /// A fresh navigator: no history, clipping on, the given zoom box.
    pub fn new(zoom: Z) -> (nav: Self)
        ensures
            nav.history().back == Seq::<AppView>::empty(),
            nav.history().forward == Seq::<AppView>::empty(),
            nav.clip_on(),
            nav.zoom_box() == zoom,
    {
        Navigator { stack: Vec::new(), redo: Vec::new(), clip: true, zoom }
    }

    /// A navigator with the given stacks, as read back from a saved state.
    pub fn from_parts(stack: Vec<AppView>, redo: Vec<AppView>, clip: bool, zoom: Z) -> (nav: Self)
        ensures
            nav.history().back == stack@,
            nav.history().forward == redo@,
            nav.clip_on() == clip,
            nav.zoom_box() == zoom,
    {
        Navigator { stack, redo, clip, zoom }
    }

    /// The back stack; its last element is the current view.
    pub fn stack(&self) -> (s: &Vec<AppView>)
        ensures
            s@ == self.history().back,
    {
        &self.stack
    }

    /// The forward stack; its last element is what `go_forward` returns to.
    pub fn redo(&self) -> (s: &Vec<AppView>)
        ensures
            s@ == self.history().forward,
    {
        &self.redo
    }

    /// The view on top of the back stack, or `Main` when there is none.
    pub fn current(&self) -> (view: AppView)
        ensures
            view == top_view(self.history().back),
    {
        let n = self.stack.len();
        if n > 0 {
            self.stack[n - 1]
        } else {
            AppView::Main
        }
    }

    /// Go back to the home zoom box `home`; the history and clipping are kept.
    /// (The home box itself is a box of floating-point coordinates, which the
    /// caller builds.)
    pub fn reset_zoom(&mut self, home: Z)
        ensures
            final(self).zoom_box() == home,
            final(self).history() == old(self).history(),
            final(self).clip_on() == old(self).clip_on(),
    {
        self.zoom = home;
    }

    /// Push `view` onto `stack`, trimming its oldest views when it passes the limit.
    fn push_trimmed(stack: &mut Vec<AppView>, view: AppView)
        ensures
            final(stack)@ == trimmed(old(stack)@.push(view)),
    {
        stack.push(view);
        if stack.len() > HISTORY_LIMIT {
            let rest = stack.split_off(HISTORY_TRIM);
            *stack = rest;
        }
    }

    /// Show `view`; the forward stack is kept.
    pub fn push(&mut self, view: AppView)
        ensures
            final(self).history() == push_history(old(self).history(), view),
            final(self).clip_on() == old(self).clip_on(),
            final(self).zoom_box() == old(self).zoom_box(),
    {
        Self::push_trimmed(&mut self.stack, view);
    }

    /// Leave the current view; it becomes the next one `go_forward` returns to.
    pub fn go_back(&mut self)
        ensures
            final(self).history() == back_history(old(self).history()),
            final(self).clip_on() == old(self).clip_on(),
            final(self).zoom_box() == old(self).zoom_box(),
    {
        let last = self.stack.pop();
        if let Some(last) = last {
            Self::push_trimmed(&mut self.redo, last);
        }
    }

    /// Return to the view that the last `go_back` left.
    pub fn go_forward(&mut self)
        ensures
            final(self).history() == forward_history(old(self).history()),
            final(self).clip_on() == old(self).clip_on(),
            final(self).zoom_box() == old(self).zoom_box(),
    {
        let last = self.redo.pop();
        if let Some(last) = last {
            self.push(last);
        }
    }

    /// Swap the current view for `view` (on an empty stack, just show `view`).
    pub fn replace(&mut self, view: AppView)
        ensures
            final(self).history() == replace_history(old(self).history(), view),
            final(self).clip_on() == old(self).clip_on(),
            final(self).zoom_box() == old(self).zoom_box(),
    {
        self.stack.pop();
        self.stack.push(view);
    }

    /// Remove and return the current view, if there is one.
    pub fn pop(&mut self) -> (res: Option<AppView>)
        ensures
            final(self).history() == pop_history(old(self).history()),
            old(self).history().back.len() > 0 ==> res == Some(top_view(old(self).history().back)),
            old(self).history().back.len() == 0 ==> res.is_none(),
            final(self).clip_on() == old(self).clip_on(),
            final(self).zoom_box() == old(self).zoom_box(),
    {
        self.stack.pop()
    }
}

} // verus!
