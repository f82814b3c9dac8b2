use vstd::prelude::*;
use std::sync::mpsc::{Receiver, SyncSender};
use std::sync::{Arc, RwLock};
use std::collections::HashMap;
use std::hash::RandomState;
use std::time::Duration;
use vstd::std_specs::hash::{builds_valid_hashers, obeys_key_model, spec_keys_iter};
use vstd::std_specs::iter::IteratorSpec;
use crate::common::Input;

verus! {

broadcast use vstd::std_specs::hash::group_hash_axioms;

/// `std::sync::mpsc::Receiver`, carried as an opaque value.
#[verifier::external_type_specification]
#[verifier::external_body]
#[verifier::reject_recursive_types(T)]
pub struct ExReceiver<T>(Receiver<T>);

/// `std::sync::mpsc::SyncSender`, carried as an opaque value.
#[verifier::external_type_specification]
#[verifier::external_body]
#[verifier::reject_recursive_types(T)]
pub struct ExSyncSender<T>(SyncSender<T>);

/// `std::sync::RwLock`, carried as an opaque value.
#[verifier::external_type_specification]
#[verifier::external_body]
#[verifier::reject_recursive_types(T)]
pub struct ExRwLock<T: ?Sized>(RwLock<T>);

/// Identifies a move at the root of the search.
#[derive(Copy, Clone, PartialEq, Eq, Hash, Debug, Structural)]
pub struct MoveId(pub usize);

impl MoveId {
    pub fn n(k: usize) -> (r: MoveId)
        ensures
            r.0 == k,
    {
        MoveId(k)
    }
}

/// Indicates that the analysis has finished and no move will be updated again.
#[derive(Clone, Copy, Debug, PartialEq, Eq, Structural)]
pub struct AnalysisDone;

/// The latest information about a move: the iteration in which it was found,
/// its rating (lower is better) and the placements that reach it.
#[derive(Debug, PartialEq, Eq)]
pub struct Move {
    pub iteration: usize,
    pub rating: i64,
    pub trace: Vec<usize>,
}

/// What the search reports about a move.
#[derive(Debug, PartialEq, Eq)]
pub struct Msg {
    pub move_id: MoveId,
    pub mov: Move,
}

/// Statistics about a finished analysis.
#[derive(Clone, Copy, Debug, Default, PartialEq, Eq)]
pub struct Stats {
    pub iterations: usize,
    pub nodes: usize,
    pub time_taken: Duration,
}

/// The inputs to play a move, and its rating.
#[derive(Clone, Debug, PartialEq, Eq)]
pub struct Suggestion {
    pub inputs: Vec<Input>,
    pub rating: i64,
}

/// A move's record as the contracts see it.
pub struct MoveView {
    pub iteration: int,
    pub rating: int,
    pub trace: Seq<usize>,
}

impl Move {
    pub open spec fn view(&self) -> MoveView {
        MoveView { iteration: self.iteration as int, rating: self.rating as int, trace: self.trace@ }
    }
}

/// What one attempt to take a message from the channel found.
enum Received {
    Message(Msg),
    Empty,
    Closed,
}

/// Relies on `std::sync::mpsc::sync_channel`: a channel that holds at most
/// `bound` messages before the sender blocks.
#[verifier::external_body]
fn bounded_channel(bound: usize) -> (r: (SyncSender<Msg>, Receiver<Msg>)) {
    std::sync::mpsc::sync_channel(bound)
}

/// Relies on `RwLock::new`: a lock around an empty slot.
#[verifier::external_body]
fn empty_stats_slot() -> (r: RwLock<Option<Stats>>) {
    RwLock::new(None)
}

/// Relies on `Arc::clone`: a second owner of the same slot.
#[verifier::external_body]
fn second_owner(slot: &Arc<RwLock<Option<Stats>>>) -> (r: Arc<RwLock<Option<Stats>>>) {
    Arc::clone(slot)
}

/// Relies on `RwLock::read`: a copy of what the slot holds, or `None` if the
/// lock is poisoned.
#[verifier::external_body]
fn read_slot(slot: &Arc<RwLock<Option<Stats>>>) -> (r: Option<Stats>) {
    match slot.read() {
        Ok(s) => *s,
        Err(_) => None,
    }
}

/// Relies on `RwLock::write`: stores `stats` in the slot unless the lock is
/// poisoned.
#[verifier::external_body]
fn write_slot(slot: &Arc<RwLock<Option<Stats>>>, stats: Stats) {
    if let Ok(mut s) = slot.write() {
        *s = Some(stats);
    }
}

/// Relies on `Receiver::try_recv`: a pending message, or word that none is
/// pending, or that the sender is gone and nothing is left.
#[verifier::external_body]
fn try_receive(rx: &Receiver<Msg>) -> (r: Received) {
    match rx.try_recv() {
        Ok(msg) => Received::Message(msg),
        Err(std::sync::mpsc::TryRecvError::Empty) => Received::Empty,
        Err(std::sync::mpsc::TryRecvError::Disconnected) => Received::Closed,
    }
}

/// Relies on `Receiver::iter`: blocks until the sender is gone, and returns
/// every message received meanwhile, in the order sent.
#[verifier::external_body]
fn receive_all(rx: &Receiver<Msg>) -> (r: Vec<Msg>) {
    rx.iter().collect()
}

/// Relies on `SyncSender::send`: false when the receiver is gone.
#[verifier::external_body]
fn send_message(tx: &SyncSender<Msg>, msg: Msg) -> (r: bool) {
    tx.send(msg).is_ok()
}

/// Used by the worker thread to send information to the `Analysis` handle.
pub struct AnalysisSink {
    stats: Arc<RwLock<Option<Stats>>>,
    tx: SyncSender<Msg>,
}

impl AnalysisSink {
    /// Tries to send `msg` to the handle. Returns `false` if the handle was dropped.
    pub fn send(&self, msg: Msg) -> (r: bool) {
        send_message(&self.tx, msg)
    }

    /// Finishes the analysis after setting the collected statistics to `stats`.
    pub fn finish(self, stats: Stats) {
        write_slot(&self.stats, stats);
    }
}

/// The move table after applying each message of `msgs`, in order.
pub open spec fn apply_all(moves: Map<MoveId, MoveView>, msgs: Seq<Msg>) -> Map<MoveId, MoveView>
    decreases msgs.len(),
{
    if msgs.len() == 0 {
        moves
    } else {
        let last = msgs.last();
        apply_all(moves, msgs.drop_last()).insert(last.move_id, last.mov.view())
    }
}

/// Orders two records by rating, then by the iteration in which they were found.
pub open spec fn record_cmp(a: MoveView, b: MoveView) -> std::cmp::Ordering {
    if a.rating < b.rating || (a.rating == b.rating && a.iteration < b.iteration) {
        std::cmp::Ordering::Less
    } else if a.rating == b.rating && a.iteration == b.iteration {
        std::cmp::Ordering::Equal
    } else {
        std::cmp::Ordering::Greater
    }
}

/// A handle to an analysis running in the background.
pub struct Analysis<F> {
    moves: HashMap<usize, Move>,
    trace_inputs: F,
    stats: Arc<RwLock<Option<Stats>>>,
    rx: Receiver<Msg>,
}

impl<F: Fn(&[usize]) -> Vec<Input>> Analysis<F> {
    /// Every move known to the handle, by id.
    pub closed spec fn moves(&self) -> Map<MoveId, MoveView> {
        Map::new(
            |id: MoveId| self.moves@.contains_key(id.0),
            |id: MoveId| self.moves@[id.0].view(),
        )
    }

    pub closed spec fn wf(&self) -> bool {
        obeys_key_model::<usize>() && builds_valid_hashers::<RandomState>()
    }

    /// The function that turns a trace into inputs.
    pub closed spec fn inputs_fn(&self) -> F {
        self.trace_inputs
    }

    /// Constructs a `(sink, handle)` pair. The handle uses `trace_inputs` to turn
    /// traces into inputs.
    pub fn new(trace_inputs: F) -> (r: (AnalysisSink, Analysis<F>))
        ensures
            r.1.wf(),
            r.1.moves() == Map::<MoveId, MoveView>::empty(),
            r.1.inputs_fn() == trace_inputs,
    {
        let (tx, rx) = bounded_channel(256);
        let stats = Arc::new(empty_stats_slot());
        let sink = AnalysisSink { stats: second_owner(&stats), tx };
        let handle = Analysis { moves: HashMap::new(), trace_inputs, stats, rx };
        assert(handle.moves() =~= Map::<MoveId, MoveView>::empty());
        (sink, handle)
    }

    /// Applies a message from the worker: the move's record becomes the one sent.
    pub fn recv(&mut self, msg: Msg) -> (r: MoveId)
        requires
            old(self).wf(),
        ensures
            final(self).wf(),
            r == msg.move_id,
            final(self).moves() == old(self).moves().insert(msg.move_id, msg.mov.view()),
            final(self).inputs_fn() == old(self).inputs_fn(),
    {
        let id = msg.move_id;
        let ghost mv = msg.mov.view();
        self.moves.insert(id.0, msg.mov);
        assert(self.moves() =~= old(self).moves().insert(id, mv));
        id
    }

    /// The record of a known move.
    fn lookup(&self, id: MoveId) -> (r: &Move)
        requires
            self.wf(),
            self.moves().contains_key(id),
        ensures
            self.moves()[id] == r.view(),
    {
        self.moves.get(&id.0).unwrap()
    }

    /// Every move known so far, each once, in no particular order. The best
    /// move is the least under `cmp`.
    pub fn all_moves(&self) -> (r: Vec<MoveId>)
        requires
            self.wf(),
        ensures
            r@.no_duplicates(),
            forall|id: MoveId| r@.contains(id) <==> self.moves().contains_key(id),
    {
        let mut out: Vec<MoveId> = Vec::new();
        for k in it: self.moves.keys()
            invariant
                out.len() == it.index(),
                forall|i: int| 0 <= i < out.len() ==> out@[i].0 == *it.seq()[i],
                it.seq() == spec_keys_iter(&self.moves).remaining(),
        {
            out.push(MoveId(*k));
        }
        proof {
            let ks = spec_keys_iter(&self.moves).remaining();
            assert(ks.unref().to_set() == self.moves@.dom());
            assert(ks.no_duplicates());
            assert(out.len() == ks.len());
            assert forall|id: MoveId| out@.contains(id) <==> self.moves().contains_key(id) by {
                if out@.contains(id) {
                    let i = choose|i: int| 0 <= i < out.len() && out@[i] == id;
                    assert(ks.unref()[i] == id.0);
                    assert(ks.unref().to_set().contains(id.0));
                }
                if self.moves().contains_key(id) {
                    assert(ks.unref().to_set().contains(id.0));
                    let i = choose|i: int| 0 <= i < ks.unref().len() && ks.unref()[i] == id.0;
                    assert(out@[i] == id);
                }
            }
            assert forall|i: int, j: int| 0 <= i < out.len() && 0 <= j < out.len() && i != j implies out@[i] != out@[j] by {
                assert(ks[i] != ks[j]);
            }
        }
        out
    }

    /// Compares two known moves; the `Less` one is preferred. Moves are ordered
    /// by rating, and equal ratings by the iteration in which they were found.
    pub fn cmp(&self, lhs: MoveId, rhs: MoveId) -> (r: std::cmp::Ordering)
        requires
            self.wf(),
            self.moves().contains_key(lhs),
            self.moves().contains_key(rhs),
        ensures
            r == record_cmp(self.moves()[lhs], self.moves()[rhs]),
    {
        let a = self.lookup(lhs);
        let b = self.lookup(rhs);
        if a.rating < b.rating || (a.rating == b.rating && a.iteration < b.iteration) {
            std::cmp::Ordering::Less
        } else if a.rating == b.rating && a.iteration == b.iteration {
            std::cmp::Ordering::Equal
        } else {
            std::cmp::Ordering::Greater
        }
    }

    /// Takes at most one pending update without blocking. `Ok(Some(m))`: move `m`
    /// got a new record. `Ok(None)`: nothing is pending. `Err(AnalysisDone)`: the
    /// analysis is over and every update has been taken.
    pub fn poll(&mut self) -> (r: Result<Option<MoveId>, AnalysisDone>)
        requires
            old(self).wf(),
        ensures
            final(self).wf(),
            final(self).inputs_fn() == old(self).inputs_fn(),
            r matches Ok(Some(id)) ==> {
                &&& final(self).moves().dom() == old(self).moves().dom().insert(id)
                &&& forall|x: MoveId|
                    x != id && old(self).moves().contains_key(x) ==> #[trigger] final(self).moves()[x]
                        == old(self).moves()[x]
            },
            r matches Ok(None) ==> final(self).moves() == old(self).moves(),
            r is Err ==> final(self).moves() == old(self).moves(),
    {
        match try_receive(&self.rx) {
            Received::Message(msg) => {
                let ghost mv = msg.mov.view();
                let id = self.recv(msg);
                assert(self.moves() == old(self).moves().insert(id, mv));
                Ok(Some(id))
            },
            Received::Empty => Ok(None),
            Received::Closed => Err(AnalysisDone),
        }
    }

    /// Applies `msgs` in order: each move ends with the last record sent for it.
    pub fn apply_msgs(&mut self, msgs: Vec<Msg>)
        requires
            old(self).wf(),
        ensures
            final(self).wf(),
            final(self).inputs_fn() == old(self).inputs_fn(),
            final(self).moves() == apply_all(old(self).moves(), msgs@),
    {
        let ghost start = self.moves();
        let ghost all = msgs@;
        let mut pending = msgs;
        let total = pending.len();
        let mut done: usize = 0;
        while pending.len() > 0
            invariant
                self.wf(),
                self.inputs_fn() == old(self).inputs_fn(),
                start == old(self).moves(),
                done + pending.len() == total,
                total == all.len(),
                pending@ == all.skip(done as int),
                self.moves() == apply_all(start, all.take(done as int)),
            decreases pending.len(),
        {
            let msg = pending.remove(0);
            assert(msg == all[done as int]);
            self.recv(msg);
            done = done + 1;
            assert(all.take(done as int).drop_last() =~= all.take(done - 1));
        }
        assert(all.take(done as int) =~= all);
    }

    /// Blocks until the analysis is over, then applies every update received
    /// meanwhile, in the order sent.
    pub fn wait(&mut self)
        requires
            old(self).wf(),
        ensures
            final(self).wf(),
            final(self).inputs_fn() == old(self).inputs_fn(),
            exists|msgs: Seq<Msg>| final(self).moves() == apply_all(old(self).moves(), msgs),
    {
        let msgs = receive_all(&self.rx);
        self.apply_msgs(msgs);
    }

    /// The inputs for the first `len` placements of move `m_id` (all of them
    /// where it has fewer), and its rating. `len` may be `0` to get the rating alone.
    pub fn suggestion(&self, m_id: MoveId, len: usize) -> (r: Suggestion)
        requires
            self.wf(),
            self.moves().contains_key(m_id),
            forall|t: &[usize]| #[trigger] self.inputs_fn().requires((t,)),
        ensures
            r.rating == self.moves()[m_id].rating,
            exists|t: &[usize]|
                t@ == self.moves()[m_id].trace.take(
                    if len < self.moves()[m_id].trace.len() { len as int } else { self.moves()[m_id].trace.len() as int },
                ) && #[trigger] self.inputs_fn().ensures((t,), r.inputs),
    {
        let mov = self.lookup(m_id);
        let n = if len < mov.trace.len() { len } else { mov.trace.len() };
        let mut prefix: Vec<usize> = Vec::new();
        let mut k: usize = 0;
        while k < n
            invariant
                n <= mov.trace.len(),
                k <= n,
                prefix@ == mov.trace@.take(k as int),
            decreases n - k,
        {
            prefix.push(mov.trace[k]);
            k = k + 1;
            assert(prefix@ =~= mov.trace@.take(k as int));
        }
        let t = prefix.as_slice();
        assert(t@ == prefix@);
        assert(self.inputs_fn() == self.trace_inputs);
        assert(self.inputs_fn().requires((t,)));
        let inputs = (self.trace_inputs)(t);
        assert(self.inputs_fn().ensures((t,), inputs));
        assert(self.moves()[m_id].trace == mov.trace@);
        assert(t@ == self.moves()[m_id].trace.take(n as int));
        let r = Suggestion { inputs, rating: mov.rating };
        assert(exists|t2: &[usize]|
            t2@ == self.moves()[m_id].trace.take(
                if len < self.moves()[m_id].trace.len() { len as int } else { self.moves()[m_id].trace.len() as int },
            ) && #[trigger] self.inputs_fn().ensures((t2,), r.inputs)) by {
            assert(self.inputs_fn().ensures((t,), r.inputs));
        }
        r
    }

    /// The statistics of the analysis: `Some` only once the worker has finished.
    pub fn stats(&self) -> (r: Option<Stats>) {
        read_slot(&self.stats)
    }
}

/// The ordering of moves by rating and then iteration is a strict total order:
/// it is reflexive on equal records, antisymmetric and transitive. Two distinct
/// moves whose records differ in rating or iteration never compare `Equal`.
pub proof fn lemma_cmp_total_order(a: MoveView, b: MoveView, c: MoveView)
    ensures
        record_cmp(a, a) == std::cmp::Ordering::Equal,
        record_cmp(a, b) == std::cmp::Ordering::Less <==> record_cmp(b, a)
            == std::cmp::Ordering::Greater,
        record_cmp(a, b) == std::cmp::Ordering::Equal <==> (a.rating == b.rating && a.iteration
            == b.iteration),
        record_cmp(a, b) == std::cmp::Ordering::Less && record_cmp(b, c)
            == std::cmp::Ordering::Less ==> record_cmp(a, c) == std::cmp::Ordering::Less,
{
}

/// On a well-formed handle whose moves carry pairwise distinct
/// (rating, iteration) records, `cmp` returns `Equal` exactly for equal ids.
pub proof fn lemma_cmp_equal_iff_same<F: Fn(&[usize]) -> Vec<Input>>(h: Analysis<F>, a: MoveId, b: MoveId)
    requires
        h.wf(),
        h.moves().contains_key(a),
        h.moves().contains_key(b),
        forall|x: MoveId, y: MoveId|
            h.moves().contains_key(x) && h.moves().contains_key(y) && x != y ==> (#[trigger] h.moves()[x]).rating
                != (#[trigger] h.moves()[y]).rating || h.moves()[x].iteration != h.moves()[y].iteration,
    ensures
        record_cmp(h.moves()[a], h.moves()[b]) == std::cmp::Ordering::Equal <==> a == b,
{
}

/// A handle's record of a move changes only when an update for that move is
/// applied, and then takes the rating sent: a worker that sends only improved
/// ratings sees them recorded in non-increasing order.
pub proof fn lemma_rating_follows_updates(
    moves: Map<MoveId, MoveView>,
    msg: Msg,
    id: MoveId,
)
    requires
        moves.contains_key(id),
        msg.move_id == id ==> msg.mov.rating <= moves[id].rating,
    ensures
        moves.insert(msg.move_id, msg.mov.view()).contains_key(id),
        moves.insert(msg.move_id, msg.mov.view())[id].rating <= moves[id].rating,
{
}

/// What one expansion step of the search reports.
pub enum SearchStep {
    /// The best rating of a root move strictly improved.
    RatingChanged { move_id: MoveId, rating: i64, trace: Vec<usize> },
    /// Useful work was done without improvement: an iteration boundary.
    NoImprovement,
    /// No node is left to expand.
    Exhausted,
}

/// What the worker does after a step.
pub enum DriverAction {
    /// Send this update to the handle; stop if it is gone.
    Send(Msg),
    /// Step again.
    Continue,
    /// Stop searching and publish the statistics.
    Finish,
    /// Stop searching without publishing anything: the handle is gone.
    Abort,
}

/// The decisions of the worker thread that drives the search.
pub struct Driver {
    pub iteration: usize,
}

impl Driver {
    pub fn new() -> (r: Driver)
        ensures
            r.iteration == 0,
    {
        Driver { iteration: 0 }
    }

    /// The search takes another step while fewer than `search_limit` nodes were
    /// expanded.
    pub fn should_step(&self, node_count: usize, search_limit: usize) -> (r: bool)
        ensures
            r == (node_count < search_limit),
    {
        node_count < search_limit
    }

    /// Decides what follows a step. An improvement is sent, stamped with the
    /// current iteration; a step without improvement ends an iteration.
    pub fn on_step(&mut self, step: SearchStep) -> (r: DriverAction)
        requires
            old(self).iteration < usize::MAX,
        ensures
            match step {
                SearchStep::RatingChanged { move_id, rating, trace } => {
                    &&& final(self).iteration == old(self).iteration
                    &&& r matches DriverAction::Send(msg)
                    &&& msg.move_id == move_id
                    &&& msg.mov.iteration == old(self).iteration
                    &&& msg.mov.rating == rating
                    &&& msg.mov.trace@ == trace@
                },
                SearchStep::NoImprovement => final(self).iteration == old(self).iteration + 1
                    && r is Continue,
                SearchStep::Exhausted => final(self).iteration == old(self).iteration
                    && r is Finish,
            },
    {
        match step {
            SearchStep::RatingChanged { move_id, rating, trace } => DriverAction::Send(
                Msg { move_id, mov: Move { iteration: self.iteration, rating, trace } },
            ),
            SearchStep::NoImprovement => {
                self.iteration = self.iteration + 1;
                DriverAction::Continue
            },
            SearchStep::Exhausted => DriverAction::Finish,
        }
    }

    /// Decides what follows an attempt to send an update: the search goes on
    /// while the handle takes updates, and stops without statistics once it is gone.
    pub fn on_send(&self, delivered: bool) -> (r: DriverAction)
        ensures
            delivered ==> r is Continue,
            !delivered ==> r is Abort,
    {
        if delivered {
            DriverAction::Continue
        } else {
            DriverAction::Abort
        }
    }

    /// The statistics published when the search stops.
    pub fn final_stats(&self, nodes: usize, time_taken: Duration) -> (r: Stats)
        ensures
            r.iterations == self.iteration,
            r.nodes == nodes,
            r.time_taken == time_taken,
    {
        Stats { iterations: self.iteration, nodes, time_taken }
    }
}

/// What the collaborators give for one placement of a trace: whether it used
/// hold, and the finesse inputs that move the piece to its landing.
pub struct PlacementInputs {
    pub did_hold: bool,
    pub finesse: Vec<Input>,
}

/// The inputs of one placement: hold if used, the finesse, then a hard drop.
pub open spec fn placement_inputs(p: PlacementInputs) -> Seq<Input> {
    (if p.did_hold { seq![Input::Hold] } else { Seq::<Input>::empty() }).add(p.finesse@).add(
        seq![Input::HD],
    )
}

/// The inputs of a sequence of placements, one after the other.
pub open spec fn trace_inputs_of(steps: Seq<PlacementInputs>) -> Seq<Input>
    decreases steps.len(),
{
    if steps.len() == 0 {
        Seq::empty()
    } else {
        trace_inputs_of(steps.drop_last()).add(placement_inputs(steps.last()))
    }
}

/// Joins the inputs of successive placements into the inputs of a whole trace.
pub fn reconstruct_inputs(steps: &[PlacementInputs]) -> (r: Vec<Input>)
    ensures
        r@ == trace_inputs_of(steps@),
{
    let mut inputs: Vec<Input> = Vec::new();
    let mut k: usize = 0;
    while k < steps.len()
        invariant
            k <= steps.len(),
            inputs@ == trace_inputs_of(steps@.take(k as int)),
        decreases steps.len() - k,
    {
        let p = &steps[k];
        let ghost before = inputs@;
        if p.did_hold {
            inputs.push(Input::Hold);
        }
        let mut f: usize = 0;
        let ghost mid = inputs@;
        while f < p.finesse.len()
            invariant
                f <= p.finesse.len(),
                inputs@ == mid.add(p.finesse@.take(f as int)),
            decreases p.finesse.len() - f,
        {
            inputs.push(p.finesse[f]);
            f = f + 1;
            assert(inputs@ =~= mid.add(p.finesse@.take(f as int)));
        }
        inputs.push(Input::HD);
        k = k + 1;
        assert(steps@.take(k as int).drop_last() =~= steps@.take(k - 1));
        assert(p.finesse@.take(f as int) =~= p.finesse@);
        assert(inputs@ =~= before.add(placement_inputs(*p)));
    }
    assert(steps@.take(k as int) =~= steps@);
    inputs
}

/// No placement gives no inputs, and the inputs of the first `k` placements of
/// a trace begin the inputs of the whole trace.
pub proof fn lemma_inputs_prefix(steps: Seq<PlacementInputs>, k: int)
    requires
        0 <= k <= steps.len(),
    ensures
        trace_inputs_of(steps.take(0)) == Seq::<Input>::empty(),
        trace_inputs_of(steps.take(k)).len() <= trace_inputs_of(steps).len(),
        trace_inputs_of(steps.take(k)) == trace_inputs_of(steps).take(
            trace_inputs_of(steps.take(k)).len() as int,
        ),
    decreases steps.len() - k,
{
    if k < steps.len() {
        lemma_inputs_prefix(steps.drop_last(), k);
        assert(steps.drop_last().take(k) =~= steps.take(k));
        let a = trace_inputs_of(steps.take(k));
        let b = trace_inputs_of(steps.drop_last());
        assert(trace_inputs_of(steps) == b.add(placement_inputs(steps.last())));
        assert(b.add(placement_inputs(steps.last())).take(a.len() as int) =~= b.take(a.len() as int));
    } else {
        assert(steps.take(k) =~= steps);
    }
}

} // verus!

