//! The background rendering pipeline as the user interface sees it: a model,
//! then the culled render, then the lighting arrive one after the other from
//! a worker; each restart gives a new run number, and results of older runs,
//! or results that arrive while the user is dragging a slider, are dropped.
use vstd::prelude::*;

verus! {

/// One result from the worker.
pub enum ProgressType<M, R, L> {
    Model(M),
    Render(R),
    Lighting(L),
}

/// A result tagged with the run that produced it.
pub struct ProgressMessage<M, R, L> {
    pub kind: ProgressType<M, R, L>,
    pub render_id: u64,
}

/// What the screen shows.
#[derive(Clone, Copy, Debug, PartialEq, Eq, Structural)]
pub enum Phase {
    /// Nothing has arrived yet.
    Waiting,
    /// The model, shaded.
    Shaded,
    /// The visible parts after culling.
    Culled,
    /// The finished line drawing with contours.
    Lit,
}

/// The results held so far and the state of the current run.
pub struct Pipeline<M, R, L> {
    model: Option<M>,
    render: Option<R>,
    lighting: Option<L>,
    render_id: u64,
    blocking_messages: bool,
}

/// The phase shown for which results are present; `None` for a combination
/// that the worker never produces (a later stage without an earlier one).
pub open spec fn phase_of(has_model: bool, has_render: bool, has_lighting: bool) -> Option<Phase> {
    if !has_model && !has_render && !has_lighting {
        Some(Phase::Waiting)
    } else if has_model && !has_render && !has_lighting {
        Some(Phase::Shaded)
    } else if has_model && has_render && !has_lighting {
        Some(Phase::Culled)
    } else if has_model && has_render && has_lighting {
        Some(Phase::Lit)
    } else {
        None
    }
}

impl<M, R, L> Pipeline<M, R, L> {
    /// The number of the current run.
    pub closed spec fn run(&self) -> u64 {
        self.render_id
    }

    /// The model, once it has arrived.
    pub closed spec fn held_model(&self) -> Option<M> {
        self.model
    }

    /// The culled render, once it has arrived.
    pub closed spec fn held_render(&self) -> Option<R> {
        self.render
    }

    /// The lighting, once it has arrived.
    pub closed spec fn held_lighting(&self) -> Option<L> {
        self.lighting
    }

    /// Whether results are being dropped while the user edits.
    pub closed spec fn blocking(&self) -> bool {
        self.blocking_messages
    }

    /// Whether a result of run `id` would be taken.
    pub open spec fn accepts(&self, id: u64) -> bool {
        !self.blocking() && id >= self.run()
    }

    /// Nothing yet, run 0, results taken.
    pub fn new() -> (p: Self)
        ensures
            p.held_model().is_none(),
            p.held_render().is_none(),
            p.held_lighting().is_none(),
            p.run() == 0,
            !p.blocking(),
    {
        Pipeline { model: None, render: None, lighting: None, render_id: 0, blocking_messages: false }
    }

    /// The model, once it has arrived.
    pub fn model(&self) -> (m: &Option<M>)
        ensures
            *m == self.held_model(),
    {
        &self.model
    }

    /// The culled render, once it has arrived.
    pub fn render(&self) -> (r: &Option<R>)
        ensures
            *r == self.held_render(),
    {
        &self.render
    }

    /// The lighting, once it has arrived.
    pub fn lighting(&self) -> (l: &Option<L>)
        ensures
            *l == self.held_lighting(),
    {
        &self.lighting
    }

    /// The number of the current run.
    pub fn render_id(&self) -> (id: u64)
        ensures
            id == self.run(),
    {
        self.render_id
    }

    /// Start a new run: the render and the lighting are dropped, and the
    /// model too when a new one is to be loaded. Returns the new run number.
    pub fn restart(&mut self, load_model: bool) -> (id: u64)
        requires
            old(self).run() < u64::MAX,
        ensures
            id == old(self).run() + 1,
            final(self).run() == id,
            final(self).blocking() == old(self).blocking(),
            final(self).held_render().is_none(),
            final(self).held_lighting().is_none(),
            load_model ==> final(self).held_model().is_none(),
            !load_model ==> final(self).held_model() == old(self).held_model(),
    {
        self.render_id = self.render_id + 1;
        self.lighting = None;
        self.render = None;
        if load_model {
            self.model = None;
        }
        self.render_id
    }

    /// The user started changing the view: drop the render and the lighting
    /// and stop taking results.
    pub fn begin_edit(&mut self)
        ensures
            final(self).blocking(),
            final(self).held_render().is_none(),
            final(self).held_lighting().is_none(),
            final(self).held_model() == old(self).held_model(),
            final(self).run() == old(self).run(),
    {
        self.blocking_messages = true;
        self.render = None;
        self.lighting = None;
    }

    /// The user finished changing the view: take results again.
    pub fn end_edit(&mut self)
        ensures
            !final(self).blocking(),
            final(self).held_render() == old(self).held_render(),
            final(self).held_lighting() == old(self).held_lighting(),
            final(self).held_model() == old(self).held_model(),
            final(self).run() == old(self).run(),
    {
        self.blocking_messages = false;
    }

    /// Take a result from the worker, unless results are being dropped or it
    /// comes from an older run. Returns whether it was taken.
    pub fn receive(&mut self, msg: ProgressMessage<M, R, L>) -> (taken: bool)
        ensures
            taken == old(self).accepts(msg.render_id),
            final(self).run() == old(self).run(),
            final(self).blocking() == old(self).blocking(),
            !taken ==> final(self).held_model() == old(self).held_model() && final(self).held_render() == old(
                self,
            ).held_render() && final(self).held_lighting() == old(self).held_lighting(),
            taken ==> match msg.kind {
                ProgressType::Model(m) => final(self).held_model() == Some(m) && final(self).held_render() == old(
                    self,
                ).held_render() && final(self).held_lighting() == old(self).held_lighting(),
                ProgressType::Render(r) => final(self).held_render() == Some(r) && final(self).held_model() == old(
                    self,
                ).held_model() && final(self).held_lighting() == old(self).held_lighting(),
                ProgressType::Lighting(l) => final(self).held_lighting() == Some(l) && final(self).held_model()
                    == old(self).held_model() && final(self).held_render() == old(self).held_render(),
            },
    {
        if self.blocking_messages {
            return false;
        }
        if msg.render_id < self.render_id {
            return false;
        }
        match msg.kind {
            ProgressType::Model(m) => {
                self.model = Some(m);
            },
            ProgressType::Render(r) => {
                self.render = Some(r);
            },
            ProgressType::Lighting(l) => {
                self.lighting = Some(l);
            },
        }
        true
    }

    /// What the screen shows (see `phase_of`).
    pub fn phase(&self) -> (p: Option<Phase>)
        ensures
            p == phase_of(self.held_model().is_some(), self.held_render().is_some(), self.held_lighting().is_some()),
    {
        match (&self.model, &self.render, &self.lighting) {
            (None, None, None) => Some(Phase::Waiting),
            (Some(_), None, None) => Some(Phase::Shaded),
            (Some(_), Some(_), None) => Some(Phase::Culled),
            (Some(_), Some(_), Some(_)) => Some(Phase::Lit),
            _ => None,
        }
    }
}

/// After a restart, no result of an earlier run is ever taken, and the
/// screen falls back to the model (or to nothing, when a new model is loaded).
pub proof fn law_restart_drops_stale<M, R, L>(
    before: Pipeline<M, R, L>,
    after: Pipeline<M, R, L>,
    id: u64,
    load_model: bool,
)
    requires
        id == before.run() + 1,
        after.run() == id,
        after.blocking() == before.blocking(),
        after.held_render().is_none(),
        after.held_lighting().is_none(),
        load_model ==> after.held_model().is_none(),
        !load_model ==> after.held_model() == before.held_model(),
    ensures
        forall|old_id: u64| old_id <= before.run() ==> !#[trigger] after.accepts(old_id),
        load_model ==> phase_of(
            after.held_model().is_some(),
            after.held_render().is_some(),
            after.held_lighting().is_some(),
        ) == Some(Phase::Waiting),
        !load_model ==> phase_of(
            after.held_model().is_some(),
            after.held_render().is_some(),
            after.held_lighting().is_some(),
        ) == Some(if before.held_model().is_some() {
            Phase::Shaded
        } else {
            Phase::Waiting
        }),
{
}

/// While the user edits, no result is taken, whatever its run.
pub proof fn law_editing_blocks<M, R, L>(p: Pipeline<M, R, L>, id: u64)
    requires
        p.blocking(),
    ensures
        !p.accepts(id),
{
}

} // verus!
