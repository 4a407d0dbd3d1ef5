//! The decisions of a node of a k-means task, as a state machine.
//!
//! The node reacts to each event by updating its state and asking its host
//! for actions: messages to send, points to generate or keep, and the
//! computations on the points (grouping them around centres, choosing new
//! centres), whose results come back as events. Where the task cannot go on
//! (a number that points outside a list, a step counter at its limit), the
//! node stops and reports the fault.

use vstd::prelude::*;
use crate::kmeans::{
    draw_in_range, empty_groups, group, lemma_group_split, lemma_share_start_bound, lemma_shares_tile,
    lemma_new_centers_len, lemma_worker_centers_are_global, new_centers, share_len, share_start, shares_end, worker_centers,
};
use crate::kmeans_struct::{MessageType, MessageView, TaskUser};

verus! {

/// The number of the node that publishes a task.
pub const TASK_PUBLISHER: usize = 0;

/// The computation whose result the node waits for.
#[derive(Debug, Clone, Copy, PartialEq, Eq, Structural)]
pub enum Pending {
    Idle,
    CodeName,
    Centers,
    Team,
    Seeds,
}

/// Why a node stopped.
#[derive(Debug, Clone, Copy, PartialEq, Eq, Structural)]
pub enum Fault {
    /// A code name arrived for a place beyond the list of participants.
    UserListIndex,
    /// A participant number beyond the list of groups.
    TeamListIndex,
    /// A participant's groups are fewer than the centres.
    ShortTeam,
    /// A participant number beyond the list of centres.
    CenterListIndex,
    /// The step counter is at its limit.
    StepOverflow,
}

/// What happens to a node.
#[derive(Debug)]
pub enum Event {
    /// A message arrived.
    Received(MessageType),
    /// The code name drawn for this node.
    CodeNameDrawn(usize),
    /// The initial centres drawn for the task.
    CentersDrawn(Vec<usize>),
    /// The groups formed on this node's share of the points.
    TeamComputed(Vec<Vec<usize>>),
    /// The centres chosen on this node's share of the clusters.
    CentersComputed(Vec<usize>),
}

/// What a node asks its host to do.
#[derive(Debug)]
pub enum Action {
    /// Send a message to all nodes.
    Send(MessageType),
    /// Wait this many seconds.
    Pause(u64),
    /// Draw a code name for this node, and hand it back.
    DrawCodeName,
    /// Generate this many points, and send them to all nodes.
    SendPoints(usize),
    /// Keep the points of the message just received.
    StorePoints,
    /// Draw this many distinct initial centres among this many points, and hand them back.
    DrawCenters(usize, usize),
    /// Start measuring the time of the task.
    StartClock,
    /// Group the points of share `num` of `max` around these centres, and hand the groups back.
    ComputeTeam(Vec<usize>, usize, usize),
    /// Choose new centres for share `num` of `max` of these clusters, and hand them back.
    ComputeCenters(Vec<Vec<usize>>, usize, usize),
    /// The centres no longer move: the task is done; report its time if asked.
    Finish(bool),
    /// The task cannot go on.
    Fail(Fault),
}

pub enum EventView {
    Received(MessageView),
    CodeNameDrawn(usize),
    CentersDrawn(Seq<usize>),
    TeamComputed(Seq<Seq<usize>>),
    CentersComputed(Seq<usize>),
}

pub enum ActionView {
    Send(MessageView),
    Pause(u64),
    DrawCodeName,
    SendPoints(usize),
    StorePoints,
    DrawCenters(usize, usize),
    StartClock,
    ComputeTeam(Seq<usize>, usize, usize),
    ComputeCenters(Seq<Seq<usize>>, usize, usize),
    Finish(bool),
    Fail(Fault),
}

impl View for Event {
    type V = EventView;

    open spec fn view(&self) -> EventView {
        match self {
            Event::Received(m) => EventView::Received(m@),
            Event::CodeNameDrawn(c) => EventView::CodeNameDrawn(*c),
            Event::CentersDrawn(k) => EventView::CentersDrawn(k@),
            Event::TeamComputed(t) => EventView::TeamComputed(t.deep_view()),
            Event::CentersComputed(k) => EventView::CentersComputed(k@),
        }
    }
}

impl View for Action {
    type V = ActionView;

    open spec fn view(&self) -> ActionView {
        match self {
            Action::Send(m) => ActionView::Send(m@),
            Action::Pause(s) => ActionView::Pause(*s),
            Action::DrawCodeName => ActionView::DrawCodeName,
            Action::SendPoints(n) => ActionView::SendPoints(*n),
            Action::StorePoints => ActionView::StorePoints,
            Action::DrawCenters(s, d) => ActionView::DrawCenters(*s, *d),
            Action::StartClock => ActionView::StartClock,
            Action::ComputeTeam(k, n, m) => ActionView::ComputeTeam(k@, *n, *m),
            Action::ComputeCenters(t, n, m) => ActionView::ComputeCenters(t.deep_view(), *n, *m),
            Action::Finish(r) => ActionView::Finish(*r),
            Action::Fail(f) => ActionView::Fail(*f),
        }
    }
}

/// The views of a list of actions.
pub open spec fn actions_view(actions: Seq<Action>) -> Seq<ActionView> {
    actions.map_values(|a: Action| a@)
}

/// The state of a node, as mathematical values.
#[verifier::ext_equal]
pub struct NodeView {
    pub role: usize,
    pub seed_num_temp: usize,
    pub dot_num: usize,
    pub user_id: TaskUser,
    pub max_user: usize,
    pub user_list: Seq<usize>,
    pub user_list_flag: usize,
    pub team_list: Seq<Seq<Seq<usize>>>,
    pub team_flag: usize,
    pub k_num_list: Seq<Seq<usize>>,
    pub k_num_flag: usize,
    pub seed_num: usize,
    pub last_k_num: Seq<usize>,
    pub point_flag: bool,
    pub step_now: usize,
    pub k_num: Seq<usize>,
    pub team: Seq<Seq<usize>>,
    pub pending: Pending,
    pub halted: bool,
}

/// A node before any message: `role` 0 publishes the task, `seed_num`
/// centres are to be drawn among `dot_num` points.
pub open spec fn initial(role: usize, seed_num: usize, dot_num: usize) -> NodeView {
    NodeView {
        role: role,
        seed_num_temp: seed_num,
        dot_num: dot_num,
        user_id: TaskUser { code_name: 0, num: 0 },
        max_user: 0,
        user_list: Seq::empty(),
        user_list_flag: 0,
        team_list: Seq::empty(),
        team_flag: 0,
        k_num_list: Seq::empty(),
        k_num_flag: 0,
        seed_num: 0,
        last_k_num: Seq::empty(),
        point_flag: false,
        step_now: 0,
        k_num: Seq::empty(),
        team: Seq::empty(),
        pending: Pending::Idle,
        halted: false,
    }
}

/// `s` cut or padded with empty lists to length `n`.
pub open spec fn resized<A>(s: Seq<Seq<A>>, n: nat) -> Seq<Seq<A>> {
    if n <= s.len() {
        s.take(n as int)
    } else {
        s + Seq::new((n - s.len()) as nat, |i: int| Seq::<A>::empty())
    }
}

/// The last position of `code` in `list`, or `current` when it does not occur.
pub open spec fn position_of(list: Seq<usize>, code: usize, current: usize) -> usize
    decreases list.len(),
{
    if list.len() == 0 {
        current
    } else if list.last() == code {
        (list.len() - 1) as usize
    } else {
        position_of(list.drop_last(), code, current)
    }
}

/// Group `j` of the first `n` participants, one after the other.
pub open spec fn merged_column(teams: Seq<Seq<Seq<usize>>>, n: int, j: int) -> Seq<usize>
    decreases n,
{
    if n <= 0 {
        Seq::empty()
    } else {
        merged_column(teams, n - 1, j) + teams[n - 1][j]
    }
}

/// The `seed_num` groups of the whole task, from the groups of the first
/// `workers` participants.
pub open spec fn merged(teams: Seq<Seq<Seq<usize>>>, workers: nat, seed_num: nat) -> Seq<
    Seq<usize>,
> {
    Seq::new(seed_num, |j: int| merged_column(teams, workers as int, j))
}

/// Each of the first `workers` participants has sent at least `seed_num` groups.
pub open spec fn teams_complete(teams: Seq<Seq<Seq<usize>>>, workers: nat, seed_num: nat) -> bool {
    &&& workers <= teams.len()
    &&& forall|i: int| 0 <= i < workers ==> (#[trigger] teams[i]).len() >= seed_num
}

/// The groups that worker `w` of `max` forms on its share of the points,
/// where `keys[i][j]` is the distance key from point `i` to centre `j`.
pub open spec fn worker_groups(keys: Seq<Seq<u64>>, w: nat, max: nat, seed_num: nat) -> Seq<
    Seq<usize>,
> {
    let start = share_start(keys.len(), w, max);
    let len = share_len(keys.len(), w, max);
    Seq::new(seed_num, |j: int| group(keys.subrange(start as int, (start + len) as int), start as int, j))
}

/// The groups of the first `n` workers, merged, are the groups over the
/// points of their shares.
proof fn lemma_merged_prefix(keys: Seq<Seq<u64>>, max: nat, seed_num: nat, j: int, n: nat)
    requires
        max > 0,
        n <= max,
        0 <= j < seed_num,
    ensures
        shares_end(keys.len(), n, max) <= keys.len(),
        merged_column(
            Seq::new(max, |w: int| worker_groups(keys, w as nat, max, seed_num)),
            n as int,
            j,
        ) == group(keys.take(shares_end(keys.len(), n, max) as int), 0, j),
    decreases n,
{
    let total = keys.len();
    let teams = Seq::new(max, |w: int| worker_groups(keys, w as nat, max, seed_num));
    lemma_shares_tile(total, max);
    if n == 0 {
        assert(group(keys.take(0), 0, j) == Seq::<usize>::empty());
    } else {
        let w = (n - 1) as nat;
        lemma_merged_prefix(keys, max, seed_num, j, w);
        let start = share_start(total, w, max);
        let len = share_len(total, w, max);
        if w > 0 {
            assert(share_start(total, (w - 1) as nat, max) + share_len(total, (w - 1) as nat, max)
                == share_start(total, ((w - 1) + 1) as nat, max));
        }
        assert(shares_end(total, w, max) == start);
        lemma_share_start_bound(total, w, max);
        let end = start + len;
        let upto = keys.take(end as int);
        lemma_group_split(upto, 0, start as int, j);
        assert(upto.take(start as int) =~= keys.take(start as int));
        assert(upto.skip(start as int) =~= keys.subrange(start as int, end as int));
        assert(teams[w as int][j] == group(keys.subrange(start as int, end as int), start as int, j));
    }
}

/// Merging the groups of all workers gives the groups that a single node
/// would form over all points: sharing the work changes nothing.
pub proof fn lemma_merged_groups_are_global(keys: Seq<Seq<u64>>, max: nat, seed_num: nat)
    requires
        max > 0,
    ensures
        merged(
            Seq::new(max, |w: int| worker_groups(keys, w as nat, max, seed_num)),
            max,
            seed_num,
        ) == Seq::new(seed_num, |j: int| group(keys, 0, j)),
{
    let total = keys.len();
    let teams = Seq::new(max, |w: int| worker_groups(keys, w as nat, max, seed_num));
    lemma_shares_tile(total, max);
    assert forall|j: int| 0 <= j < seed_num implies #[trigger] merged(teams, max, seed_num)[j]
        == group(keys, 0, j) by {
        lemma_merged_prefix(keys, max, seed_num, j, max);
        assert(keys.take(total as int) =~= keys);
    }
    assert(merged(teams, max, seed_num) =~= Seq::new(seed_num, |j: int| group(keys, 0, j)));
}

/// The node stops on fault `f`.
pub open spec fn stop(s: NodeView, f: Fault) -> (NodeView, Seq<ActionView>) {
    (NodeView { halted: true, ..s }, seq![ActionView::Fail(f)])
}

/// A new task with `max` participants: the lists are set to its size, and
/// the node announces its code name, drawing one first unless it publishes.
pub open spec fn on_task_name(s: NodeView, max: usize) -> (NodeView, Seq<ActionView>) {
    let t = NodeView {
        max_user: max,
        user_list: Seq::new(max as nat, |i: int| 1usize),
        team_list: resized(s.team_list, max as nat),
        ..s
    };
    if s.role == TASK_PUBLISHER {
        (t, seq![ActionView::Send(MessageView::CodeName(s.user_id.code_name))])
    } else {
        (NodeView { pending: Pending::CodeName, ..t }, seq![ActionView::DrawCodeName])
    }
}

/// A code name: the publisher records it at the next free place; once all
/// participants are known it sends the list, waits a second, and sends the
/// points. Other nodes ignore it.
pub open spec fn on_code_name(s: NodeView, code: usize) -> (NodeView, Seq<ActionView>) {
    if s.role != TASK_PUBLISHER || s.user_list_flag >= s.max_user {
        (s, seq![])
    } else if s.user_list_flag >= s.user_list.len() {
        stop(s, Fault::UserListIndex)
    } else {
        let list = s.user_list.update(s.user_list_flag as int, code);
        let t = NodeView { user_list: list, user_list_flag: (s.user_list_flag + 1) as usize, ..s };
        if s.user_list_flag + 1 == s.max_user {
            (
                t,
                seq![
                    ActionView::Send(MessageView::Num(list)),
                    ActionView::Pause(1),
                    ActionView::SendPoints(s.dot_num),
                ],
            )
        } else {
            (t, seq![])
        }
    }
}

/// The list of participants: the node takes its number from the place of its
/// code name.
pub open spec fn on_num(s: NodeView, list: Seq<usize>) -> (NodeView, Seq<ActionView>) {
    (
        NodeView {
            user_list: list,
            user_id: TaskUser {
                code_name: s.user_id.code_name,
                num: position_of(list, s.user_id.code_name, s.user_id.num),
            },
            ..s
        },
        seq![],
    )
}

/// The points: the first time, the node keeps them and starts at step 1;
/// node 0 then draws the initial centres.
pub open spec fn on_points(s: NodeView) -> (NodeView, Seq<ActionView>) {
    if s.point_flag {
        (s, seq![])
    } else {
        let t = NodeView { point_flag: true, step_now: 1, ..s };
        if s.user_id.num == 0 {
            (
                NodeView { pending: Pending::Centers, ..t },
                seq![ActionView::StorePoints, ActionView::DrawCenters(s.seed_num_temp, s.dot_num)],
            )
        } else {
            (t, seq![ActionView::StorePoints])
        }
    }
}

/// The initial centres: node 0 starts its clock; a node that has the points
/// takes the centres and groups its share of the points around them.
pub open spec fn on_reset_centers(s: NodeView, k: Seq<usize>) -> (NodeView, Seq<ActionView>) {
    let clock: Seq<ActionView> = if s.user_id.num == TASK_PUBLISHER {
        seq![ActionView::StartClock]
    } else {
        seq![]
    };
    if s.point_flag {
        (
            NodeView {
                k_num: k,
                last_k_num: k,
                seed_num: k.len() as usize,
                k_num_list: resized(s.k_num_list, k.len()),
                pending: Pending::Team,
                ..s
            },
            clock.push(ActionView::ComputeTeam(k, s.user_id.num, s.max_user)),
        )
    } else {
        (s, clock)
    }
}

/// The groups of participant `num` for `step`: taken while the step is the
/// node's and not all groups are in; with the last ones, the node merges all
/// groups and chooses new centres on its share of the clusters.
pub open spec fn on_team(s: NodeView, step: usize, num: usize, groups: Seq<Seq<usize>>) -> (
    NodeView,
    Seq<ActionView>,
) {
    if !(s.point_flag && step == s.step_now && s.team_flag < s.max_user) {
        (s, seq![])
    } else if num >= s.team_list.len() {
        stop(s, Fault::TeamListIndex)
    } else {
        let teams = s.team_list.update(num as int, groups);
        let t = NodeView { team_list: teams, team_flag: (s.team_flag + 1) as usize, ..s };
        if s.team_flag + 1 < s.max_user {
            (t, seq![])
        } else if !teams_complete(teams, s.max_user as nat, s.seed_num as nat) {
            stop(t, Fault::ShortTeam)
        } else {
            let team = merged(teams, s.max_user as nat, s.seed_num as nat);
            (
                NodeView {
                    team_flag: 0,
                    team: team,
                    k_num_list: resized(s.k_num_list, s.seed_num as nat),
                    pending: Pending::Seeds,
                    ..t
                },
                seq![ActionView::ComputeCenters(team, s.user_id.num, s.max_user)],
            )
        }
    }
}

/// The centres of participant `num` for `step`: taken while the step is the
/// node's and not all centres are in; with the last ones, the node joins all
/// centres: if they are the previous centres the task is done, otherwise it
/// groups its share of the points around them.
pub open spec fn on_centers(s: NodeView, step: usize, num: usize, k: Seq<usize>) -> (
    NodeView,
    Seq<ActionView>,
) {
    if !(s.point_flag && step == s.step_now && s.k_num_flag < s.max_user) {
        (s, seq![])
    } else if num >= s.k_num_list.len() {
        stop(s, Fault::CenterListIndex)
    } else {
        let lists = s.k_num_list.update(num as int, k);
        let t = NodeView { k_num_list: lists, k_num_flag: (s.k_num_flag + 1) as usize, ..s };
        if s.k_num_flag + 1 < s.max_user {
            (t, seq![])
        } else {
            let all = lists.flatten();
            let u = NodeView { k_num_flag: 0, k_num: all, ..t };
            if all == s.last_k_num {
                (
                    NodeView { halted: true, ..u },
                    seq![ActionView::Finish(s.user_id.num == TASK_PUBLISHER)],
                )
            } else {
                (
                    NodeView { last_k_num: all, pending: Pending::Team, ..u },
                    seq![ActionView::ComputeTeam(all, s.user_id.num, s.max_user)],
                )
            }
        }
    }
}

/// A received message.
pub open spec fn on_message(s: NodeView, m: MessageView) -> (NodeView, Seq<ActionView>) {
    match m {
        MessageView::TaskName(_, max) => on_task_name(s, max),
        MessageView::CodeName(code) => on_code_name(s, code),
        MessageView::Num(list) => on_num(s, list),
        MessageView::Point(_) => on_points(s),
        MessageView::ResetKNum(k) => on_reset_centers(s, k),
        MessageView::Team(step, num, groups) => on_team(s, step, num, groups),
        MessageView::KNum(step, num, k) => on_centers(s, step, num, k),
        MessageView::Handshaking(_, _) => (s, seq![]),
    }
}

/// This node's groups: it keeps them and sends them for the next step.
pub open spec fn on_team_computed(s: NodeView, groups: Seq<Seq<usize>>) -> (NodeView, Seq<ActionView>) {
    if s.user_id.num >= s.team_list.len() {
        stop(s, Fault::TeamListIndex)
    } else if s.step_now == usize::MAX {
        stop(s, Fault::StepOverflow)
    } else {
        let step = (s.step_now + 1) as usize;
        (
            NodeView {
                team_list: s.team_list.update(s.user_id.num as int, groups),
                step_now: step,
                pending: Pending::Idle,
                ..s
            },
            seq![ActionView::Send(MessageView::Team(step, s.user_id.num, groups))],
        )
    }
}

/// This node's centres: it keeps them and sends them for the next step.
pub open spec fn on_centers_computed(s: NodeView, k: Seq<usize>) -> (NodeView, Seq<ActionView>) {
    if s.user_id.num >= s.k_num_list.len() {
        stop(s, Fault::CenterListIndex)
    } else if s.step_now == usize::MAX {
        stop(s, Fault::StepOverflow)
    } else {
        let step = (s.step_now + 1) as usize;
        (
            NodeView {
                k_num_list: s.k_num_list.update(s.user_id.num as int, k),
                step_now: step,
                k_num_flag: 0,
                pending: Pending::Idle,
                ..s
            },
            seq![ActionView::Send(MessageView::KNum(step, s.user_id.num, k))],
        )
    }
}

/// The transition of a node: a stopped node does nothing; a node that waits
/// for a result takes only that result; an idle node takes messages.
pub open spec fn next(s: NodeView, e: EventView) -> (NodeView, Seq<ActionView>) {
    if s.halted {
        (s, seq![])
    } else {
        match (s.pending, e) {
            (Pending::Idle, EventView::Received(m)) => on_message(s, m),
            (Pending::CodeName, EventView::CodeNameDrawn(code)) => (
                NodeView {
                    user_id: TaskUser { code_name: code, num: s.user_id.num },
                    pending: Pending::Idle,
                    ..s
                },
                seq![ActionView::Send(MessageView::CodeName(code))],
            ),
            (Pending::Centers, EventView::CentersDrawn(k)) => (
                NodeView { k_num: k, pending: Pending::Idle, ..s },
                seq![ActionView::Send(MessageView::ResetKNum(k))],
            ),
            (Pending::Team, EventView::TeamComputed(groups)) => on_team_computed(s, groups),
            (Pending::Seeds, EventView::CentersComputed(k)) => on_centers_computed(s, k),
            _ => (s, seq![]),
        }
    }
}

/// The shape a node keeps: one list of groups per participant, one list of
/// centres per centre slot, and no step (nor computation) before the points.
pub open spec fn well_formed(s: NodeView) -> bool {
    &&& s.team_list.len() == s.max_user
    &&& s.k_num_list.len() == s.seed_num
    &&& !s.point_flag ==> s.step_now == 0 && s.pending != Pending::Team && s.pending
        != Pending::Seeds
}

/// An event whose lists have lengths that a machine can hold.
pub open spec fn event_fits(e: EventView) -> bool {
    match e {
        EventView::Received(MessageView::ResetKNum(k)) => k.len() <= usize::MAX,
        _ => true,
    }
}

/// Every transition keeps the shape of a node.
pub proof fn lemma_next_well_formed(s: NodeView, e: EventView)
    requires
        well_formed(s),
        event_fits(e),
    ensures
        well_formed(next(s, e).0),
{
}

/// The step counter of a node never goes back.
pub proof fn lemma_step_monotone(s: NodeView, e: EventView)
    requires
        well_formed(s),
    ensures
        next(s, e).0.step_now >= s.step_now,
{
}

/// A stopped node stays as it is and asks for nothing.
pub proof fn lemma_halted_absorbing(s: NodeView, e: EventView)
    requires
        s.halted,
    ensures
        next(s, e).0 == s,
        next(s, e).1 == Seq::<ActionView>::empty(),
{
}

/// A node finishes only when the centres it joined are those of the
/// previous round; it then stops, holding those centres.
pub proof fn lemma_finish_when_stable(s: NodeView, e: EventView)
    ensures
        forall|i: int|
            0 <= i < next(s, e).1.len() && (#[trigger] next(s, e).1[i] is Finish) ==> {
                &&& next(s, e).0.halted
                &&& next(s, e).0.k_num == s.last_k_num
                &&& next(s, e).1.len() == 1
            },
{
}

/// Groups and centres for another step than the node's are ignored.
pub proof fn lemma_other_step_ignored(
    s: NodeView,
    step: usize,
    num: usize,
    groups: Seq<Seq<usize>>,
    k: Seq<usize>,
)
    requires
        step != s.step_now,
    ensures
        next(s, EventView::Received(MessageView::Team(step, num, groups))) == (s, Seq::<ActionView>::empty()),
        next(s, EventView::Received(MessageView::KNum(step, num, k))) == (s, Seq::<ActionView>::empty()),
{
}

/// Only the publisher records code names.
pub proof fn lemma_workers_ignore_code_names(s: NodeView, code: usize)
    requires
        s.role != TASK_PUBLISHER,
    ensures
        next(s, EventView::Received(MessageView::CodeName(code))) == (s, Seq::<ActionView>::empty()),
{
}

/// Once a node has points, it keeps them: later point messages change
/// nothing and ask for nothing.
pub proof fn lemma_later_points_ignored(s: NodeView, count: usize)
    requires
        s.point_flag,
    ensures
        next(s, EventView::Received(MessageView::Point(count))) == (s, Seq::<ActionView>::empty()),
{
}

/// The first point message that an idle node takes is kept: the node asks
/// to store its points and starts at step 1.
pub proof fn lemma_first_points_kept(s: NodeView, count: usize)
    requires
        !s.halted,
        s.pending == Pending::Idle,
        !s.point_flag,
    ensures
        next(s, EventView::Received(MessageView::Point(count))).0.point_flag,
        next(s, EventView::Received(MessageView::Point(count))).0.step_now == 1,
        next(s, EventView::Received(MessageView::Point(count))).1[0] == ActionView::StorePoints,
{
}

/// No event takes the points away from a node.
pub proof fn lemma_points_stay(s: NodeView, e: EventView)
    requires
        s.point_flag,
    ensures
        next(s, e).0.point_flag,
{
}

/// A node that finishes holds the previous centres, which are its lists of
/// centres joined, and keeps its groups.
proof fn lemma_finish_joins(s: NodeView, e: EventView)
    requires
        next(s, e).1.len() > 0,
        next(s, e).1[0] is Finish,
    ensures
        next(s, e).0.halted,
        next(s, e).0.k_num == s.last_k_num,
        next(s, e).0.k_num == next(s, e).0.k_num_list.flatten(),
        next(s, e).0.team == s.team,
        next(s, e).0.k_num_list.len() == s.k_num_list.len(),
        0 < s.max_user,
{
}

/// Empty lists at the end add nothing to a join.
proof fn lemma_join_padding(p: Seq<Seq<usize>>, m: nat, n: nat)
    requires
        m <= n <= p.len(),
        forall|w: int| m <= w < p.len() ==> #[trigger] p[w] == Seq::<usize>::empty(),
    ensures
        p.take(n as int).flatten_alt() == p.take(m as int).flatten_alt(),
    decreases n,
{
    if n > m {
        lemma_join_padding(p, m, (n - 1) as nat);
        assert(p.take(n as int).drop_last() =~= p.take(n - 1));
        assert(p.take(n as int).last() == Seq::<usize>::empty());
        assert(p.take(n - 1).flatten_alt() + Seq::<usize>::empty() =~= p.take(n - 1).flatten_alt());
    }
}

/// At the end of a task the centres are a fixed point of a round. Suppose
/// the merged groups are the groups of all points around the previous
/// centres (`keys[t][j]` is the key of point `t` to previous centre `j`),
/// and each participant's list holds its share of the new centres of those
/// groups (`mean_keys[c]` holds the keys of the members of group `c` to its
/// mean). Then a node that finishes stops, holding the previous centres,
/// and these are the new centres of the groups around them.
pub proof fn lemma_finish_is_fixed_point(
    s: NodeView,
    e: EventView,
    keys: Seq<Seq<u64>>,
    mean_keys: Seq<Seq<u64>>,
)
    requires
        well_formed(s),
        next(s, e).1.len() > 0,
        next(s, e).1[0] is Finish,
        s.max_user <= s.seed_num,
        s.team == Seq::new(s.seed_num as nat, |j: int| group(keys, 0, j)),
        mean_keys.len() == s.seed_num,
        next(s, e).0.k_num_list == Seq::new(
            s.seed_num as nat,
            |w: int|
                if w < s.max_user {
                    worker_centers(s.team, mean_keys, w as nat, s.max_user as nat)
                } else {
                    Seq::<usize>::empty()
                },
        ),
    ensures
        next(s, e).0.halted,
        next(s, e).0.k_num == s.last_k_num,
        next(s, e).0.k_num == new_centers(s.team, mean_keys, 0),
        next(s, e).0.team == Seq::new(s.seed_num as nat, |j: int| group(keys, 0, j)),
{
    lemma_finish_joins(s, e);
    let p = next(s, e).0.k_num_list;
    let max = s.max_user as nat;
    let workers = Seq::new(max, |w: int| worker_centers(s.team, mean_keys, w as nat, max));
    lemma_join_padding(p, max, p.len());
    assert(p.take(p.len() as int) =~= p);
    assert(p.take(max as int) =~= workers);
    p.lemma_flatten_and_flatten_alt_are_equivalent();
    workers.lemma_flatten_and_flatten_alt_are_equivalent();
    lemma_worker_centers_are_global(s.team, mean_keys, max);
}

/// The groups of all points around the centres `k`, where `dist(k)[t][j]`
/// is the key of the distance from point `t` to centre `k[j]`: what a node
/// alone in its task asks its host to compute.
pub open spec fn round_groups(dist: spec_fn(Seq<usize>) -> Seq<Seq<u64>>, k: Seq<usize>) -> Seq<
    Seq<usize>,
> {
    Seq::new(k.len(), |j: int| group(dist(k), 0, j))
}

/// The new centres of the groups `team`, where `mean_keys(team)[c]` holds
/// the keys of the distances from the members of group `c` to its mean.
pub open spec fn round_centers(
    mean_keys: spec_fn(Seq<Seq<usize>>) -> Seq<Seq<u64>>,
    team: Seq<Seq<usize>>,
) -> Seq<usize> {
    new_centers(team, mean_keys(team), 0)
}

/// An event that a node alone in its task (participant 0 of 1) meets when
/// its host answers each computation with the library's result and every
/// message it receives for its current step is the one it sent for that
/// step: groups at even steps, centres at odd steps from 3 on. The initial
/// centres come once, at step 1, and no new task or list of participants
/// comes.
pub open spec fn faithful(
    s: NodeView,
    e: EventView,
    dist: spec_fn(Seq<usize>) -> Seq<Seq<u64>>,
    mean_keys: spec_fn(Seq<Seq<usize>>) -> Seq<Seq<u64>>,
) -> bool {
    match e {
        EventView::TeamComputed(g) => g == round_groups(dist, s.last_k_num),
        EventView::CentersComputed(c) => c == round_centers(mean_keys, s.team),
        EventView::Received(MessageView::TaskName(_, _)) => false,
        EventView::Received(MessageView::Num(_)) => false,
        EventView::Received(MessageView::ResetKNum(k)) => k.len() <= usize::MAX && (s.step_now
            == 1 || !s.point_flag),
        EventView::Received(MessageView::Team(step, num, g)) => s.point_flag && step == s.step_now
            ==> step % 2 == 0 && num == 0 && g == s.team_list[0],
        EventView::Received(MessageView::KNum(step, num, k)) => s.point_flag && step == s.step_now
            ==> step % 2 == 1 && step >= 3 && num == 0 && s.k_num_list.len() > 0 && k
            == s.k_num_list[0],
        _ => true,
    }
}

/// What a node alone in its task keeps through the rounds: after its groups
/// (even steps) they are the groups around the previous centres; after its
/// centres (odd steps from 3 on) those are the new centres of those groups.
pub open spec fn round_invariant(
    s: NodeView,
    dist: spec_fn(Seq<usize>) -> Seq<Seq<u64>>,
    mean_keys: spec_fn(Seq<Seq<usize>>) -> Seq<Seq<u64>>,
) -> bool {
    s.halted || {
        &&& well_formed(s)
        &&& s.max_user == 1
        &&& s.user_id.num == 0
        &&& s.team_flag == 0
        &&& s.k_num_flag == 0
        &&& forall|w: int|
            1 <= w < s.k_num_list.len() ==> #[trigger] s.k_num_list[w] == Seq::<usize>::empty()
        &&& s.last_k_num.len() <= s.seed_num
        &&& s.point_flag ==> s.step_now >= 1
        &&& s.pending == Pending::Team ==> s.step_now % 2 == 1
        &&& s.pending == Pending::Seeds ==> s.step_now % 2 == 0 && s.step_now >= 2 && s.team
            == round_groups(dist, s.last_k_num)
        &&& s.point_flag && s.step_now >= 2 && s.pending != Pending::Team ==> s.team_list[0]
            == round_groups(dist, s.last_k_num)
        &&& s.point_flag && s.step_now % 2 == 1 && s.step_now >= 3 && s.pending
            != Pending::Team ==> s.team == round_groups(dist, s.last_k_num) && s.k_num_list.len()
            > 0 && s.k_num_list[0] == round_centers(mean_keys, s.team)
    }
}

/// One faithful event keeps the round invariant; and when it ends the task,
/// the centres the node holds are a fixed point of a round: the new centres
/// of the groups around them are themselves.
pub proof fn lemma_round_step(
    s: NodeView,
    e: EventView,
    dist: spec_fn(Seq<usize>) -> Seq<Seq<u64>>,
    mean_keys: spec_fn(Seq<Seq<usize>>) -> Seq<Seq<u64>>,
)
    requires
        forall|t: Seq<Seq<usize>>| (#[trigger] mean_keys(t)).len() == t.len(),
        round_invariant(s, dist, mean_keys),
        faithful(s, e, dist, mean_keys),
    ensures
        round_invariant(next(s, e).0, dist, mean_keys),
        next(s, e).1.len() > 0 && next(s, e).1[0] is Finish ==> {
            let f = next(s, e).0;
            &&& f.halted
            &&& f.k_num == s.last_k_num
            &&& f.team == round_groups(dist, f.k_num)
            &&& round_centers(mean_keys, f.team) == f.k_num
        },
{
    let n = next(s, e).0;
    if !s.halted {
        match (s.pending, e) {
            (Pending::Idle, EventView::Received(MessageView::Team(step, num, g))) => {
                if s.point_flag && step == s.step_now && s.team_flag < s.max_user && num
                    < s.team_list.len() {
                    let teams = s.team_list.update(0, g);
                    assert(teams =~= s.team_list);
                    if teams_complete(teams, 1, s.seed_num as nat) {
                        let r = round_groups(dist, s.last_k_num);
                        assert(r.len() == s.last_k_num.len());
                        assert(merged(teams, 1, s.seed_num as nat) =~= r) by {
                            assert forall|j: int| 0 <= j < s.seed_num implies #[trigger] merged(
                                teams,
                                1,
                                s.seed_num as nat,
                            )[j] == r[j] by {
                                assert(merged_column(teams, 0, j) == Seq::<usize>::empty());
                                assert(merged_column(teams, 1, j) == merged_column(teams, 0, j)
                                    + teams[0][j]);
                                assert(Seq::<usize>::empty() + teams[0][j] =~= teams[0][j]);
                            }
                        }
                        assert(resized(s.k_num_list, s.seed_num as nat) =~= s.k_num_list);
                    }
                }
            },
            (Pending::Idle, EventView::Received(MessageView::KNum(step, num, k))) => {
                if s.point_flag && step == s.step_now && s.k_num_flag < s.max_user && num
                    < s.k_num_list.len() {
                    let lists = s.k_num_list.update(0, k);
                    assert(lists =~= s.k_num_list);
                    lemma_join_padding(lists, 1, lists.len());
                    assert(lists.take(lists.len() as int) =~= lists);
                    assert(lists.take(1).drop_last() =~= Seq::<Seq<usize>>::empty());
                    assert(Seq::<Seq<usize>>::empty().flatten_alt() == Seq::<usize>::empty());
                    assert(lists.take(1).last() == lists[0]);
                    assert(lists.take(1).flatten_alt() =~= lists[0]);
                    lists.lemma_flatten_and_flatten_alt_are_equivalent();
                    lemma_new_centers_len(s.team, mean_keys(s.team), 0);
                }
            },
            (Pending::Idle, EventView::Received(MessageView::ResetKNum(k))) => {
                if s.point_flag {
                    assert forall|w: int|
                        1 <= w < n.k_num_list.len() implies #[trigger] n.k_num_list[w]
                        == Seq::<usize>::empty() by {
                        if w < s.k_num_list.len() {
                            assert(n.k_num_list[w] == s.k_num_list[w]);
                        }
                    }
                }
            },
            (Pending::Seeds, EventView::CentersComputed(c)) => {
                if s.user_id.num < s.k_num_list.len() && s.step_now != usize::MAX {
                    assert forall|w: int|
                        1 <= w < n.k_num_list.len() implies #[trigger] n.k_num_list[w]
                        == Seq::<usize>::empty() by {
                        assert(n.k_num_list[w] == s.k_num_list[w]);
                    }
                }
            },
            _ => {},
        }
    }
}

/// The state of a node after the events `events`, one after the other.
pub open spec fn run(s: NodeView, events: Seq<EventView>) -> NodeView
    decreases events.len(),
{
    if events.len() == 0 {
        s
    } else {
        next(run(s, events.drop_last()), events.last()).0
    }
}

/// Each event of `events` is faithful in the state where it arrives.
pub open spec fn faithful_run(
    s: NodeView,
    events: Seq<EventView>,
    dist: spec_fn(Seq<usize>) -> Seq<Seq<u64>>,
    mean_keys: spec_fn(Seq<Seq<usize>>) -> Seq<Seq<u64>>,
) -> bool {
    forall|i: int|
        0 <= i < events.len() ==> faithful(run(s, events.take(i)), #[trigger] events[i], dist, mean_keys)
}

proof fn lemma_run_invariant(
    s: NodeView,
    events: Seq<EventView>,
    dist: spec_fn(Seq<usize>) -> Seq<Seq<u64>>,
    mean_keys: spec_fn(Seq<Seq<usize>>) -> Seq<Seq<u64>>,
)
    requires
        forall|t: Seq<Seq<usize>>| (#[trigger] mean_keys(t)).len() == t.len(),
        round_invariant(s, dist, mean_keys),
        faithful_run(s, events, dist, mean_keys),
    ensures
        round_invariant(run(s, events), dist, mean_keys),
    decreases events.len(),
{
    if events.len() > 0 {
        let before = events.drop_last();
        assert forall|i: int| 0 <= i < before.len() implies faithful(
            run(s, before.take(i)),
            #[trigger] before[i],
            dist,
            mean_keys,
        ) by {
            assert(before.take(i) =~= events.take(i));
            assert(before[i] == events[i]);
        }
        lemma_run_invariant(s, before, dist, mean_keys);
        let last = events.len() - 1;
        assert(events.take(last) =~= before);
        assert(faithful(run(s, events.take(last)), events[last], dist, mean_keys));
        lemma_round_step(run(s, before), events.last(), dist, mean_keys);
    }
}

/// A node alone in its task whose host and messages are faithful ends, if
/// it ends, at a fixed point of a round: it stops, and the new centres of
/// the groups around its centres are its centres.
pub proof fn lemma_single_node_run_ends_at_fixed_point(
    s: NodeView,
    events: Seq<EventView>,
    dist: spec_fn(Seq<usize>) -> Seq<Seq<u64>>,
    mean_keys: spec_fn(Seq<Seq<usize>>) -> Seq<Seq<u64>>,
)
    requires
        forall|t: Seq<Seq<usize>>| (#[trigger] mean_keys(t)).len() == t.len(),
        round_invariant(s, dist, mean_keys),
        faithful_run(s, events, dist, mean_keys),
        events.len() > 0,
        next(run(s, events.drop_last()), events.last()).1.len() > 0,
        next(run(s, events.drop_last()), events.last()).1[0] is Finish,
    ensures
        run(s, events).halted,
        run(s, events).team == round_groups(dist, run(s, events).k_num),
        round_centers(mean_keys, run(s, events).team) == run(s, events).k_num,
{
    let before = events.drop_last();
    assert forall|i: int| 0 <= i < before.len() implies faithful(
        run(s, before.take(i)),
        #[trigger] before[i],
        dist,
        mean_keys,
    ) by {
        assert(before.take(i) =~= events.take(i));
        assert(before[i] == events[i]);
    }
    lemma_run_invariant(s, before, dist, mean_keys);
    let last = events.len() - 1;
    assert(events.take(last) =~= before);
    assert(faithful(run(s, events.take(last)), events[last], dist, mean_keys));
    lemma_round_step(run(s, before), events.last(), dist, mean_keys);
}

/// A publisher alone in its task, once it has announced itself and learnt
/// that it is participant 0, meets the round invariant.
pub proof fn lemma_publisher_alone_starts_round_invariant(
    seed_num: usize,
    dot_num: usize,
    task: Seq<char>,
    dist: spec_fn(Seq<usize>) -> Seq<Seq<u64>>,
    mean_keys: spec_fn(Seq<Seq<usize>>) -> Seq<Seq<u64>>,
)
    ensures
        round_invariant(
            run(
                initial(TASK_PUBLISHER, seed_num, dot_num),
                seq![
                    EventView::Received(MessageView::TaskName(task, 1)),
                    EventView::Received(MessageView::CodeName(0)),
                    EventView::Received(MessageView::Num(seq![0usize])),
                ],
            ),
            dist,
            mean_keys,
        ),
{
    let e = seq![
        EventView::Received(MessageView::TaskName(task, 1)),
        EventView::Received(MessageView::CodeName(0)),
        EventView::Received(MessageView::Num(seq![0usize])),
    ];
    let s0 = initial(TASK_PUBLISHER, seed_num, dot_num);
    let e1 = e.drop_last().drop_last();
    let e2 = e.drop_last();
    assert(e1.drop_last() =~= Seq::<EventView>::empty());
    assert(e2.drop_last() =~= e1);
    assert(run(s0, e1.drop_last()) == s0);
    let s1 = next(s0, e[0]).0;
    assert(run(s0, e1) == s1);
    let s2 = next(s1, e[1]).0;
    assert(run(s0, e2) == s2);
    let s3 = next(s2, e[2]).0;
    assert(run(s0, e) == s3);
    assert(resized(Seq::<Seq<Seq<usize>>>::empty(), 1) =~= seq![Seq::<Seq<usize>>::empty()]);
    assert(s1.team_list.len() == 1);
    assert(s1.user_list.len() == 1);
    assert(s2.team_list.len() == 1);
    assert(seq![0usize].last() == 0);
    assert(position_of(seq![0usize], 0, 0) == 0);
    assert(s3.user_id.num == 0);
}

/// A node asks to store points exactly when, idle and running, it takes a
/// point message without having points yet.
pub proof fn lemma_store_points_when(s: NodeView, e: EventView)
    ensures
        next(s, e).1.contains(ActionView::StorePoints) <==> (!s.halted && s.pending == Pending::Idle
            && !s.point_flag && e is Received && e->Received_0 is Point),
{
    let acts = next(s, e).1;
    if !s.halted && s.pending == Pending::Idle && !s.point_flag && e is Received && e->Received_0 is Point {
        assert(acts[0] == ActionView::StorePoints);
    }
}

/// What a node asks for at event `i` of a run.
pub open spec fn actions_at(s: NodeView, events: Seq<EventView>, i: int) -> Seq<ActionView> {
    next(run(s, events.take(i)), events[i]).1
}

proof fn lemma_points_stay_in_run(s: NodeView, events: Seq<EventView>, i: int, k: int)
    requires
        0 <= i <= k <= events.len(),
        run(s, events.take(i)).point_flag,
    ensures
        run(s, events.take(k)).point_flag,
    decreases k - i,
{
    if k > i {
        lemma_points_stay_in_run(s, events, i, k - 1);
        assert(events.take(k).drop_last() =~= events.take(k - 1));
        assert(events.take(k).last() == events[k - 1]);
        lemma_points_stay(run(s, events.take(k - 1)), events[k - 1]);
    }
}

/// In a run a node asks at most once to store points: the points it keeps
/// are those of the first point message it takes.
pub proof fn lemma_points_stored_once(s: NodeView, events: Seq<EventView>, i: int, j: int)
    requires
        0 <= i < j < events.len(),
        actions_at(s, events, i).contains(ActionView::StorePoints),
    ensures
        !actions_at(s, events, j).contains(ActionView::StorePoints),
{
    lemma_store_points_when(run(s, events.take(i)), events[i]);
    let after = next(run(s, events.take(i)), events[i]).0;
    assert(after.point_flag);
    assert(events.take(i + 1).drop_last() =~= events.take(i));
    assert(events.take(i + 1).last() == events[i]);
    assert(run(s, events.take(i + 1)) == after);
    lemma_points_stay_in_run(s, events, i + 1, j);
    lemma_store_points_when(run(s, events.take(j)), events[j]);
}

proof fn lemma_position_is_last_place(list: Seq<usize>, code: usize, current: usize, i: int)
    requires
        0 <= i < list.len(),
        list.len() <= usize::MAX,
        list[i] == code,
        forall|j: int| i < j < list.len() ==> #[trigger] list[j] != code,
    ensures
        position_of(list, code, current) == i,
    decreases list.len(),
{
    if list.len() - 1 != i {
        assert(list.last() == list[list.len() - 1]);
        let d = list.drop_last();
        assert forall|j: int| i < j < d.len() implies #[trigger] d[j] != code by {
            assert(d[j] == list[j]);
        }
        lemma_position_is_last_place(d, code, current, i);
    }
}

proof fn lemma_position_absent(list: Seq<usize>, code: usize, current: usize)
    requires
        forall|j: int| 0 <= j < list.len() ==> #[trigger] list[j] != code,
    ensures
        position_of(list, code, current) == current,
    decreases list.len(),
{
    if list.len() > 0 {
        let d = list.drop_last();
        assert forall|j: int| 0 <= j < d.len() implies #[trigger] d[j] != code by {
            assert(d[j] == list[j]);
        }
        lemma_position_absent(d, code, current);
    }
}

/// A node that takes a list of participants gets as its number the last
/// place of its code name in the list, every entry of the list counted; a
/// list without its code name leaves its number as it was. The list becomes
/// its list, and nothing is asked for.
pub proof fn lemma_num_is_last_place(s: NodeView, list: Seq<usize>)
    requires
        list.len() <= usize::MAX,
        !s.halted,
        s.pending == Pending::Idle,
    ensures
        next(s, EventView::Received(MessageView::Num(list))).0.user_list == list,
        next(s, EventView::Received(MessageView::Num(list))).0.user_id.code_name == s.user_id.code_name,
        next(s, EventView::Received(MessageView::Num(list))).1.len() == 0,
        forall|i: int|
            0 <= i < list.len() && #[trigger] list[i] == s.user_id.code_name && (forall|j: int|
                i < j < list.len() ==> list[j] != s.user_id.code_name) ==> next(
                s,
                EventView::Received(MessageView::Num(list)),
            ).0.user_id.num == i,
        (forall|j: int| 0 <= j < list.len() ==> list[j] != s.user_id.code_name) ==> next(
            s,
            EventView::Received(MessageView::Num(list)),
        ).0.user_id.num == s.user_id.num,
{
    let code = s.user_id.code_name;
    assert forall|i: int|
        0 <= i < list.len() && #[trigger] list[i] == code && (forall|j: int|
            i < j < list.len() ==> list[j] != code) implies next(
        s,
        EventView::Received(MessageView::Num(list)),
    ).0.user_id.num == i by {
        assert forall|j: int| i < j < list.len() implies #[trigger] list[j] != code by {}
        lemma_position_is_last_place(list, code, s.user_id.num, i);
    }
    if forall|j: int| 0 <= j < list.len() ==> list[j] != code {
        assert forall|j: int| 0 <= j < list.len() implies #[trigger] list[j] != code by {}
        lemma_position_absent(list, code, s.user_id.num);
    }
}

/// When its host hands a node the groups of its share, the node keeps them
/// as its own entry and sends exactly those groups, stamped with the next
/// step and its own number.
pub proof fn lemma_sends_computed_groups(s: NodeView, g: Seq<Seq<usize>>)
    requires
        !s.halted,
        s.pending == Pending::Team,
        s.user_id.num < s.team_list.len(),
        s.step_now < usize::MAX,
    ensures
        next(s, EventView::TeamComputed(g)).1 == seq![
            ActionView::Send(MessageView::Team((s.step_now + 1) as usize, s.user_id.num, g)),
        ],
        next(s, EventView::TeamComputed(g)).0.team_list[s.user_id.num as int] == g,
        next(s, EventView::TeamComputed(g)).0.step_now == s.step_now + 1,
        next(s, EventView::TeamComputed(g)).0.pending == Pending::Idle,
        forall|w: int|
            0 <= w < s.team_list.len() && w != s.user_id.num ==> #[trigger] next(
                s,
                EventView::TeamComputed(g),
            ).0.team_list[w] == s.team_list[w],
{
}

/// When its host hands a node the centres of its share, the node keeps them
/// as its own entry and sends exactly those centres, stamped with the next
/// step and its own number.
pub proof fn lemma_sends_computed_centers(s: NodeView, k: Seq<usize>)
    requires
        !s.halted,
        s.pending == Pending::Seeds,
        s.user_id.num < s.k_num_list.len(),
        s.step_now < usize::MAX,
    ensures
        next(s, EventView::CentersComputed(k)).1 == seq![
            ActionView::Send(MessageView::KNum((s.step_now + 1) as usize, s.user_id.num, k)),
        ],
        next(s, EventView::CentersComputed(k)).0.k_num_list[s.user_id.num as int] == k,
        next(s, EventView::CentersComputed(k)).0.step_now == s.step_now + 1,
        next(s, EventView::CentersComputed(k)).0.pending == Pending::Idle,
        forall|w: int|
            0 <= w < s.k_num_list.len() && w != s.user_id.num ==> #[trigger] next(
                s,
                EventView::CentersComputed(k),
            ).0.k_num_list[w] == s.k_num_list[w],
{
}

/// A node that has the points and takes initial centres `k` makes them its
/// centres and asks for the groups of its own share: the last action is to
/// group share `user_id.num` of `max_user` around `k`.
pub proof fn lemma_reset_asks_own_share(s: NodeView, k: Seq<usize>)
    requires
        !s.halted,
        s.pending == Pending::Idle,
        s.point_flag,
    ensures
        ({
            let (n, acts) = next(s, EventView::Received(MessageView::ResetKNum(k)));
            &&& acts.len() > 0
            &&& acts.last() == ActionView::ComputeTeam(k, s.user_id.num, s.max_user)
            &&& n.k_num == k
            &&& n.last_k_num == k
            &&& n.pending == Pending::Team
        }),
{
}

/// The groups and centres that a node sends carry its new step and its own
/// number.
pub proof fn lemma_sends_are_stamped(s: NodeView, e: EventView)
    ensures
        forall|i: int| 0 <= i < next(s, e).1.len() ==> match #[trigger] next(s, e).1[i] {
            ActionView::Send(MessageView::Team(step, num, _)) => step == next(s, e).0.step_now
                && num == s.user_id.num,
            ActionView::Send(MessageView::KNum(step, num, _)) => step == next(s, e).0.step_now
                && num == s.user_id.num,
            _ => true,
        },
{
}

/// A code name for a worker, drawn in `2 .. usize::MAX`.
pub fn draw_code_name() -> (code: usize)
    ensures
        2 <= code < usize::MAX,
{
    draw_in_range(2, usize::MAX)
}

/// A task number, drawn in `0 .. usize::MAX`.
pub fn draw_task_number() -> (task: usize)
    ensures
        task < usize::MAX,
{
    draw_in_range(0, usize::MAX)
}

/// A node of a k-means task.
pub struct KmeansNode {
    /// 0 for the node that publishes the task, another number for a worker.
    pub role: usize,
    /// The number of initial centres that node 0 draws.
    pub seed_num_temp: usize,
    /// The number of points that the publisher generates.
    pub dot_num: usize,
    pub user_id: TaskUser,
    /// The number of participants.
    pub max_user: usize,
    /// The code names of the participants.
    pub user_list: Vec<usize>,
    /// How many code names the publisher has recorded.
    pub user_list_flag: usize,
    /// The groups of each participant.
    pub team_list: Vec<Vec<Vec<usize>>>,
    /// How many participants' groups arrived at this step.
    pub team_flag: usize,
    /// The centres chosen by each participant.
    pub k_num_list: Vec<Vec<usize>>,
    /// How many participants' centres arrived at this step.
    pub k_num_flag: usize,
    /// The number of centres.
    pub seed_num: usize,
    /// The centres of the previous round.
    pub last_k_num: Vec<usize>,
    /// Whether the points arrived.
    pub point_flag: bool,
    /// The step of the protocol.
    pub step_now: usize,
    /// The current centres.
    pub k_num: Vec<usize>,
    /// The merged groups of the last round.
    pub team: Vec<Vec<usize>>,
    pub pending: Pending,
    /// Whether the node stopped, done or failed.
    pub halted: bool,
}

impl View for KmeansNode {
    type V = NodeView;

    open spec fn view(&self) -> NodeView {
        NodeView {
            role: self.role,
            seed_num_temp: self.seed_num_temp,
            dot_num: self.dot_num,
            user_id: self.user_id,
            max_user: self.max_user,
            user_list: self.user_list@,
            user_list_flag: self.user_list_flag,
            team_list: self.team_list.deep_view(),
            team_flag: self.team_flag,
            k_num_list: self.k_num_list.deep_view(),
            k_num_flag: self.k_num_flag,
            seed_num: self.seed_num,
            last_k_num: self.last_k_num@,
            point_flag: self.point_flag,
            step_now: self.step_now,
            k_num: self.k_num@,
            team: self.team.deep_view(),
            pending: self.pending,
            halted: self.halted,
        }
    }
}

/// A copy of a list.
fn copy_list(v: &Vec<usize>) -> (r: Vec<usize>)
    ensures
        r@ == v@,
{
    let mut r: Vec<usize> = Vec::new();
    for i in 0..v.len()
        invariant
            r@ == v@.take(i as int),
    {
        r.push(v[i]);
        proof {
            assert(r@ =~= v@.take(i + 1));
        }
    }
    proof {
        assert(v@.take(v@.len() as int) =~= v@);
    }
    r
}

/// A copy of a list of lists.
fn copy_groups(v: &Vec<Vec<usize>>) -> (r: Vec<Vec<usize>>)
    ensures
        r.deep_view() == v.deep_view(),
{
    let mut r: Vec<Vec<usize>> = Vec::new();
    for i in 0..v.len()
        invariant
            r@.len() == i,
            r.deep_view() == v.deep_view().take(i as int),
    {
        let c = copy_list(&v[i]);
        proof {
            assert(c.deep_view() =~= v@[i as int].deep_view());
        }
        let ghost before = r@;
        r.push(c);
        proof {
            assert forall|k: int| 0 <= k < i implies r@[k].deep_view() == #[trigger] v@[k].deep_view() by {
                assert(r@[k] == before[k]);
                assert(v.deep_view().take(i as int)[k] == v@[k].deep_view());
            }
            assert(r.deep_view() =~= v.deep_view().take(i + 1));
        }
    }
    proof {
        assert(v.deep_view().take(v@.len() as int) =~= v.deep_view());
    }
    r
}

/// `n` ones.
fn ones(n: usize) -> (r: Vec<usize>)
    ensures
        r@ == Seq::new(n as nat, |i: int| 1usize),
{
    let mut r: Vec<usize> = Vec::new();
    for i in 0..n
        invariant
            r@ == Seq::new(i as nat, |k: int| 1usize),
    {
        r.push(1);
        proof {
            assert(r@ =~= Seq::new((i + 1) as nat, |k: int| 1usize));
        }
    }
    r
}

/// Cuts or pads a list of lists to `n` lists.
fn resize_groups(v: &mut Vec<Vec<usize>>, n: usize)
    ensures
        final(v).deep_view() == resized(old(v).deep_view(), n as nat),
{
    if n <= v.len() {
        v.truncate(n);
        proof {
            assert(v.deep_view() =~= resized(old(v).deep_view(), n as nat));
        }
    } else {
        let ghost start = v.deep_view();
        while v.len() < n
            invariant
                n > start.len(),
                start.len() <= v@.len() <= n,
                v.deep_view() == start + Seq::new(
                    (v@.len() - start.len()) as nat,
                    |i: int| Seq::<usize>::empty(),
                ),
            decreases n - v@.len(),
        {
            let ghost before = v.deep_view();
            let e: Vec<usize> = Vec::new();
            proof {
                assert(e.deep_view() =~= Seq::<usize>::empty());
            }
            v.push(e);
            proof {
                assert(v.deep_view() =~= before.push(Seq::<usize>::empty()));
                assert(v.deep_view() =~= start + Seq::new(
                    (v@.len() - start.len()) as nat,
                    |i: int| Seq::<usize>::empty(),
                ));
            }
        }
    }
}

/// Cuts or pads a list of lists of lists to `n` entries.
fn resize_teams(v: &mut Vec<Vec<Vec<usize>>>, n: usize)
    ensures
        final(v).deep_view() == resized(old(v).deep_view(), n as nat),
{
    if n <= v.len() {
        v.truncate(n);
        proof {
            assert(v.deep_view() =~= resized(old(v).deep_view(), n as nat));
        }
    } else {
        let ghost start = v.deep_view();
        while v.len() < n
            invariant
                n > start.len(),
                start.len() <= v@.len() <= n,
                v.deep_view() == start + Seq::new(
                    (v@.len() - start.len()) as nat,
                    |i: int| Seq::<Seq<usize>>::empty(),
                ),
            decreases n - v@.len(),
        {
            let ghost before = v.deep_view();
            let e: Vec<Vec<usize>> = Vec::new();
            proof {
                assert(e.deep_view() =~= Seq::<Seq<usize>>::empty());
            }
            v.push(e);
            proof {
                assert(v.deep_view() =~= before.push(Seq::<Seq<usize>>::empty()));
                assert(v.deep_view() =~= start + Seq::new(
                    (v@.len() - start.len()) as nat,
                    |i: int| Seq::<Seq<usize>>::empty(),
                ));
            }
        }
    }
}

/// Appends the elements of `src` to `dst`.
fn append_list(dst: &mut Vec<usize>, src: &Vec<usize>)
    ensures
        final(dst)@ == old(dst)@ + src@,
{
    let ghost start = dst@;
    for i in 0..src.len()
        invariant
            dst@ == start + src@.take(i as int),
    {
        dst.push(src[i]);
        proof {
            assert(dst@ =~= start + src@.take(i + 1));
        }
    }
    proof {
        assert(src@.take(src@.len() as int) =~= src@);
    }
}

/// Whether two lists are equal.
fn same_list(a: &Vec<usize>, b: &Vec<usize>) -> (r: bool)
    ensures
        r == (a@ == b@),
{
    if a.len() != b.len() {
        return false;
    }
    for i in 0..a.len()
        invariant
            a@.len() == b@.len(),
            forall|k: int| 0 <= k < i ==> a@[k] == b@[k],
    {
        if a[i] != b[i] {
            return false;
        }
    }
    proof {
        assert(a@ =~= b@);
    }
    true
}

/// All lists, one after the other.
fn join_lists(lists: &Vec<Vec<usize>>) -> (r: Vec<usize>)
    ensures
        r@ == lists.deep_view().flatten(),
{
    let ghost all = lists.deep_view();
    let mut r: Vec<usize> = Vec::new();
    for i in 0..lists.len()
        invariant
            all == lists.deep_view(),
            r@ == all.take(i as int).flatten_alt(),
    {
        proof {
            assert(all.take(i + 1).drop_last() =~= all.take(i as int));
            assert(all[i as int] =~= lists@[i as int]@);
        }
        append_list(&mut r, &lists[i]);
    }
    proof {
        assert(all.take(lists@.len() as int) =~= all);
        all.lemma_flatten_and_flatten_alt_are_equivalent();
    }
    r
}

/// Whether each of the first `workers` participants sent at least `seed_num` groups.
fn check_teams(teams: &Vec<Vec<Vec<usize>>>, workers: usize, seed_num: usize) -> (r: bool)
    ensures
        r == teams_complete(teams.deep_view(), workers as nat, seed_num as nat),
{
    if teams.len() < workers {
        return false;
    }
    for i in 0..workers
        invariant
            workers <= teams@.len(),
            forall|k: int| 0 <= k < i ==> (#[trigger] teams.deep_view()[k]).len() >= seed_num,
    {
        if teams[i].len() < seed_num {
            proof {
                assert(teams.deep_view()[i as int].len() == teams@[i as int]@.len());
            }
            return false;
        }
    }
    true
}

/// The groups of the whole task: group `j` lists group `j` of each of the
/// first `workers` participants, in order.
fn merge_teams(teams: &Vec<Vec<Vec<usize>>>, workers: usize, seed_num: usize) -> (r: Vec<
    Vec<usize>,
>)
    requires
        teams_complete(teams.deep_view(), workers as nat, seed_num as nat),
    ensures
        r.deep_view() == merged(teams.deep_view(), workers as nat, seed_num as nat),
{
    let ghost all = teams.deep_view();
    let mut team = empty_groups(seed_num);
    for i in 0..workers
        invariant
            all == teams.deep_view(),
            teams_complete(all, workers as nat, seed_num as nat),
            team@.len() == seed_num,
            forall|j: int| 0 <= j < seed_num ==> (#[trigger] team@[j])@ == merged_column(all, i as int, j),
    {
        proof {
            assert(all[i as int].len() >= seed_num);
        }
        for j in 0..seed_num
            invariant
                all == teams.deep_view(),
                teams_complete(all, workers as nat, seed_num as nat),
                i < workers,
                team@.len() == seed_num,
                forall|c: int|
                    0 <= c < j ==> (#[trigger] team@[c])@ == merged_column(all, i + 1, c),
                forall|c: int|
                    j <= c < seed_num ==> (#[trigger] team@[c])@ == merged_column(all, i as int, c),
        {
            proof {
                assert(all[i as int].len() >= seed_num);
                assert(all[i as int] == teams@[i as int].deep_view());
                assert(all[i as int][j as int] =~= teams@[i as int]@[j as int]@);
            }
            append_list(&mut team[j], &teams[i][j]);
        }
    }
    proof {
        assert forall|j: int| 0 <= j < seed_num implies #[trigger] team.deep_view()[j] == merged(
            all,
            workers as nat,
            seed_num as nat,
        )[j] by {
            assert(team.deep_view()[j] =~= team@[j]@);
        }
        assert(team.deep_view() =~= merged(all, workers as nat, seed_num as nat));
    }
    team
}

impl KmeansNode {
    /// A node before any message: `role` 0 publishes the task, `seed_num`
    /// centres are drawn among `dot_num` points.
    pub fn new(role: usize, seed_num: usize, dot_num: usize) -> (node: KmeansNode)
        ensures
            node@ == initial(role, seed_num, dot_num),
    {
        let node = KmeansNode {
            role,
            seed_num_temp: seed_num,
            dot_num,
            user_id: TaskUser { code_name: 0, num: 0 },
            max_user: 0,
            user_list: Vec::new(),
            user_list_flag: 0,
            team_list: Vec::new(),
            team_flag: 0,
            k_num_list: Vec::new(),
            k_num_flag: 0,
            seed_num: 0,
            last_k_num: Vec::new(),
            point_flag: false,
            step_now: 0,
            k_num: Vec::new(),
            team: Vec::new(),
            pending: Pending::Idle,
            halted: false,
        };
        proof {
            assert(node.team_list.deep_view() =~= Seq::<Seq<Seq<usize>>>::empty());
            assert(node.k_num_list.deep_view() =~= Seq::<Seq<usize>>::empty());
            assert(node.team.deep_view() =~= Seq::<Seq<usize>>::empty());
        }
        node
    }

    fn stop(&mut self, f: Fault) -> (actions: Vec<Action>)
        ensures
            final(self)@ == stop(old(self)@, f).0,
            actions_view(actions@) == stop(old(self)@, f).1,
    {
        self.halted = true;
        let actions = vec![Action::Fail(f)];
        proof {
            assert(actions_view(actions@) =~= stop(old(self)@, f).1);
        }
        actions
    }

    fn on_task_name(&mut self, max: usize) -> (actions: Vec<Action>)
        ensures
            final(self)@ == on_task_name(old(self)@, max).0,
            actions_view(actions@) == on_task_name(old(self)@, max).1,
    {
        self.max_user = max;
        self.user_list = ones(max);
        resize_teams(&mut self.team_list, max);
        if self.role == TASK_PUBLISHER {
            let actions = vec![Action::Send(MessageType::CodeNameMessage(self.user_id.code_name))];
            proof {
                assert(actions_view(actions@) =~= on_task_name(old(self)@, max).1);
            }
            actions
        } else {
            self.pending = Pending::CodeName;
            let actions = vec![Action::DrawCodeName];
            proof {
                assert(actions_view(actions@) =~= on_task_name(old(self)@, max).1);
            }
            actions
        }
    }

    fn on_code_name(&mut self, code: usize) -> (actions: Vec<Action>)
        ensures
            final(self)@ == on_code_name(old(self)@, code).0,
            actions_view(actions@) == on_code_name(old(self)@, code).1,
    {
        if self.role != TASK_PUBLISHER || self.user_list_flag >= self.max_user {
            proof {
                assert(actions_view(Seq::<Action>::empty()) =~= Seq::<ActionView>::empty());
            }
            Vec::new()
        } else if self.user_list_flag >= self.user_list.len() {
            self.stop(Fault::UserListIndex)
        } else {
            let f = self.user_list_flag;
            self.user_list.set(f, code);
            self.user_list_flag = f + 1;
            if self.user_list_flag == self.max_user {
                let list = copy_list(&self.user_list);
                let actions = vec![
                    Action::Send(MessageType::NumMessage(list)),
                    Action::Pause(1),
                    Action::SendPoints(self.dot_num),
                ];
                proof {
                    assert(actions_view(actions@) =~= on_code_name(old(self)@, code).1);
                }
                actions
            } else {
                proof {
                    assert(actions_view(Seq::<Action>::empty()) =~= Seq::<ActionView>::empty());
                }
                Vec::new()
            }
        }
    }
    fn on_num(&mut self, list: Vec<usize>) -> (actions: Vec<Action>)
        ensures
            final(self)@ == on_num(old(self)@, list@).0,
            actions_view(actions@) == on_num(old(self)@, list@).1,
    {
        let code = self.user_id.code_name;
        let ghost first = self.user_id.num;
        let mut num = self.user_id.num;
        for i in 0..list.len()
            invariant
                num == position_of(list@.take(i as int), code, first),
        {
            proof {
                assert(list@.take(i + 1).drop_last() =~= list@.take(i as int));
            }
            if list[i] == code {
                num = i;
            }
        }
        proof {
            assert(list@.take(list@.len() as int) =~= list@);
        }
        self.user_id = TaskUser { code_name: code, num };
        self.user_list = list;
        proof {
            assert(actions_view(Seq::<Action>::empty()) =~= Seq::<ActionView>::empty());
        }
        Vec::new()
    }

    fn on_points(&mut self) -> (actions: Vec<Action>)
        ensures
            final(self)@ == on_points(old(self)@).0,
            actions_view(actions@) == on_points(old(self)@).1,
    {
        if self.point_flag {
            proof {
                assert(actions_view(Seq::<Action>::empty()) =~= Seq::<ActionView>::empty());
            }
            Vec::new()
        } else {
            self.point_flag = true;
            self.step_now = 1;
            if self.user_id.num == 0 {
                self.pending = Pending::Centers;
                let actions = vec![
                    Action::StorePoints,
                    Action::DrawCenters(self.seed_num_temp, self.dot_num),
                ];
                proof {
                    assert(actions_view(actions@) =~= on_points(old(self)@).1);
                }
                actions
            } else {
                let actions = vec![Action::StorePoints];
                proof {
                    assert(actions_view(actions@) =~= on_points(old(self)@).1);
                }
                actions
            }
        }
    }

    fn on_reset_centers(&mut self, k: Vec<usize>) -> (actions: Vec<Action>)
        ensures
            final(self)@ == on_reset_centers(old(self)@, k@).0,
            actions_view(actions@) == on_reset_centers(old(self)@, k@).1,
    {
        let mut actions: Vec<Action> = Vec::new();
        if self.user_id.num == TASK_PUBLISHER {
            actions.push(Action::StartClock);
        }
        proof {
            let clock: Seq<ActionView> = if old(self).user_id.num == TASK_PUBLISHER {
                seq![ActionView::StartClock]
            } else {
                seq![]
            };
            assert(actions_view(actions@) =~= clock);
        }
        if self.point_flag {
            let ghost before = actions@;
            self.k_num = copy_list(&k);
            self.last_k_num = copy_list(&k);
            self.seed_num = k.len();
            resize_groups(&mut self.k_num_list, k.len());
            self.pending = Pending::Team;
            actions.push(Action::ComputeTeam(k, self.user_id.num, self.max_user));
            proof {
                assert(actions_view(actions@) =~= actions_view(before).push(
                    ActionView::ComputeTeam(k@, self.user_id.num, self.max_user),
                ));
            }
        }
        actions
    }

    fn on_team(&mut self, step: usize, num: usize, groups: Vec<Vec<usize>>) -> (actions: Vec<Action>)
        ensures
            final(self)@ == on_team(old(self)@, step, num, groups.deep_view()).0,
            actions_view(actions@) == on_team(old(self)@, step, num, groups.deep_view()).1,
    {
        if !(self.point_flag && step == self.step_now && self.team_flag < self.max_user) {
            proof {
                assert(actions_view(Seq::<Action>::empty()) =~= Seq::<ActionView>::empty());
            }
            return Vec::new();
        }
        if num >= self.team_list.len() {
            return self.stop(Fault::TeamListIndex);
        }
        let ghost g = groups.deep_view();
        let ghost before = self.team_list.deep_view();
        self.team_list.set(num, groups);
        proof {
            assert(self.team_list.deep_view() =~= before.update(num as int, g));
        }
        self.team_flag = self.team_flag + 1;
        if self.team_flag < self.max_user {
            proof {
                assert(actions_view(Seq::<Action>::empty()) =~= Seq::<ActionView>::empty());
            }
            return Vec::new();
        }
        if !check_teams(&self.team_list, self.max_user, self.seed_num) {
            return self.stop(Fault::ShortTeam);
        }
        let team = merge_teams(&self.team_list, self.max_user, self.seed_num);
        self.team_flag = 0;
        self.team = copy_groups(&team);
        resize_groups(&mut self.k_num_list, self.seed_num);
        self.pending = Pending::Seeds;
        let actions = vec![Action::ComputeCenters(team, self.user_id.num, self.max_user)];
        proof {
            assert(actions_view(actions@) =~= on_team(old(self)@, step, num, g).1);
        }
        actions
    }

    fn on_centers(&mut self, step: usize, num: usize, k: Vec<usize>) -> (actions: Vec<Action>)
        ensures
            final(self)@ == on_centers(old(self)@, step, num, k@).0,
            actions_view(actions@) == on_centers(old(self)@, step, num, k@).1,
    {
        if !(self.point_flag && step == self.step_now && self.k_num_flag < self.max_user) {
            proof {
                assert(actions_view(Seq::<Action>::empty()) =~= Seq::<ActionView>::empty());
            }
            return Vec::new();
        }
        if num >= self.k_num_list.len() {
            return self.stop(Fault::CenterListIndex);
        }
        let ghost kv = k@;
        let ghost before = self.k_num_list.deep_view();
        proof {
            assert(k.deep_view() =~= kv);
        }
        self.k_num_list.set(num, k);
        proof {
            assert(self.k_num_list.deep_view() =~= before.update(num as int, kv));
        }
        self.k_num_flag = self.k_num_flag + 1;
        if self.k_num_flag < self.max_user {
            proof {
                assert(actions_view(Seq::<Action>::empty()) =~= Seq::<ActionView>::empty());
            }
            return Vec::new();
        }
        let all = join_lists(&self.k_num_list);
        self.k_num_flag = 0;
        self.k_num = copy_list(&all);
        if same_list(&all, &self.last_k_num) {
            self.halted = true;
            let actions = vec![Action::Finish(self.user_id.num == TASK_PUBLISHER)];
            proof {
                assert(actions_view(actions@) =~= on_centers(old(self)@, step, num, kv).1);
            }
            actions
        } else {
            self.last_k_num = copy_list(&all);
            self.pending = Pending::Team;
            let actions = vec![Action::ComputeTeam(all, self.user_id.num, self.max_user)];
            proof {
                assert(actions_view(actions@) =~= on_centers(old(self)@, step, num, kv).1);
            }
            actions
        }
    }

    fn on_team_computed(&mut self, groups: Vec<Vec<usize>>) -> (actions: Vec<Action>)
        ensures
            final(self)@ == on_team_computed(old(self)@, groups.deep_view()).0,
            actions_view(actions@) == on_team_computed(old(self)@, groups.deep_view()).1,
    {
        let num = self.user_id.num;
        if num >= self.team_list.len() {
            return self.stop(Fault::TeamListIndex);
        }
        if self.step_now == usize::MAX {
            return self.stop(Fault::StepOverflow);
        }
        let step = self.step_now + 1;
        let sent = copy_groups(&groups);
        let ghost g = groups.deep_view();
        let ghost before = self.team_list.deep_view();
        self.team_list.set(num, groups);
        proof {
            assert(self.team_list.deep_view() =~= before.update(num as int, g));
        }
        self.step_now = step;
        self.pending = Pending::Idle;
        let actions = vec![Action::Send(MessageType::TeamMessage((step, num, sent)))];
        proof {
            assert(actions_view(actions@) =~= on_team_computed(old(self)@, g).1);
        }
        actions
    }

    fn on_centers_computed(&mut self, k: Vec<usize>) -> (actions: Vec<Action>)
        ensures
            final(self)@ == on_centers_computed(old(self)@, k@).0,
            actions_view(actions@) == on_centers_computed(old(self)@, k@).1,
    {
        let num = self.user_id.num;
        if num >= self.k_num_list.len() {
            return self.stop(Fault::CenterListIndex);
        }
        if self.step_now == usize::MAX {
            return self.stop(Fault::StepOverflow);
        }
        let step = self.step_now + 1;
        let sent = copy_list(&k);
        let ghost kv = k@;
        let ghost before = self.k_num_list.deep_view();
        proof {
            assert(k.deep_view() =~= kv);
        }
        self.k_num_list.set(num, k);
        proof {
            assert(self.k_num_list.deep_view() =~= before.update(num as int, kv));
        }
        self.step_now = step;
        self.k_num_flag = 0;
        self.pending = Pending::Idle;
        let actions = vec![Action::Send(MessageType::KNumMessage((step, num, sent)))];
        proof {
            assert(actions_view(actions@) =~= on_centers_computed(old(self)@, kv).1);
        }
        actions
    }

    fn on_message(&mut self, m: MessageType) -> (actions: Vec<Action>)
        ensures
            final(self)@ == on_message(old(self)@, m@).0,
            actions_view(actions@) == on_message(old(self)@, m@).1,
    {
        match m {
            MessageType::TaskNameMessage(_, max) => self.on_task_name(max),
            MessageType::CodeNameMessage(code) => self.on_code_name(code),
            MessageType::NumMessage(list) => self.on_num(list),
            MessageType::PointMessage(_) => self.on_points(),
            MessageType::ResetKNumMessage(k) => self.on_reset_centers(k),
            MessageType::TeamMessage((step, num, groups)) => self.on_team(step, num, groups),
            MessageType::KNumMessage((step, num, k)) => self.on_centers(step, num, k),
            MessageType::HandshakingMessage(_) => {
                proof {
                    assert(actions_view(Seq::<Action>::empty()) =~= Seq::<ActionView>::empty());
                }
                Vec::new()
            },
        }
    }

    /// Takes one event: updates the node and returns the actions it asks for,
    /// as `next` says.
    pub fn step(&mut self, event: Event) -> (actions: Vec<Action>)
        ensures
            final(self)@ == next(old(self)@, event@).0,
            actions_view(actions@) == next(old(self)@, event@).1,
    {
        proof {
            assert(actions_view(Seq::<Action>::empty()) =~= Seq::<ActionView>::empty());
        }
        if self.halted {
            return Vec::new();
        }
        match (self.pending, event) {
            (Pending::Idle, Event::Received(m)) => self.on_message(m),
            (Pending::CodeName, Event::CodeNameDrawn(code)) => {
                self.user_id = TaskUser { code_name: code, num: self.user_id.num };
                self.pending = Pending::Idle;
                let actions = vec![Action::Send(MessageType::CodeNameMessage(code))];
                proof {
                    assert(actions_view(actions@) =~= seq![ActionView::Send(MessageView::CodeName(code))]);
                }
                actions
            },
            (Pending::Centers, Event::CentersDrawn(k)) => {
                self.k_num = copy_list(&k);
                self.pending = Pending::Idle;
                let ghost kv = k@;
                let actions = vec![Action::Send(MessageType::ResetKNumMessage(k))];
                proof {
                    assert(actions_view(actions@) =~= seq![ActionView::Send(MessageView::ResetKNum(kv))]);
                }
                actions
            },
            (Pending::Team, Event::TeamComputed(groups)) => self.on_team_computed(groups),
            (Pending::Seeds, Event::CentersComputed(k)) => self.on_centers_computed(k),
            _ => Vec::new(),
        }
    }

}

} // verus!
