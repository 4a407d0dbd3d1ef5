//! The identity of a node in a k-means task, and the messages of the protocol.

use vstd::prelude::*;

verus! {

/// A participant of a task: the code name it announced, and its position in
/// the list of participants, which is also the share of the work it takes.
#[derive(Debug, Clone, Copy)]
pub struct TaskUser {
    pub code_name: usize,
    pub num: usize,
}

/// The messages that the nodes of a task exchange.
///
/// The points themselves travel beside the protocol's logic: a
/// `PointMessage` carries here the number of points it brings.
#[derive(Debug)]
pub enum MessageType {
    /// A new task: its name, and the number of participants.
    TaskNameMessage(String, usize),
    /// A participant announces its code name.
    CodeNameMessage(usize),
    /// The list of code names; a node's position in it is its number.
    NumMessage(Vec<usize>),
    /// The points to cluster.
    PointMessage(usize),
    /// Step, sender number, and the groups the sender formed on its share of the points.
    TeamMessage((usize, usize, Vec<Vec<usize>>)),
    /// Step, sender number, and the centres the sender chose on its share of the clusters.
    KNumMessage((usize, usize, Vec<usize>)),
    /// The initial centres.
    ResetKNumMessage(Vec<usize>),
    /// A port and a step, exchanged for diagnosis.
    HandshakingMessage((String, usize)),
}

/// The content of a message, as mathematical values.
pub enum MessageView {
    TaskName(Seq<char>, usize),
    CodeName(usize),
    Num(Seq<usize>),
    Point(usize),
    Team(usize, usize, Seq<Seq<usize>>),
    KNum(usize, usize, Seq<usize>),
    ResetKNum(Seq<usize>),
    Handshaking(Seq<char>, usize),
}

impl View for MessageType {
    type V = MessageView;

    open spec fn view(&self) -> MessageView {
        match self {
            MessageType::TaskNameMessage(task, max) => MessageView::TaskName(task@, *max),
            MessageType::CodeNameMessage(code) => MessageView::CodeName(*code),
            MessageType::NumMessage(list) => MessageView::Num(list@),
            MessageType::PointMessage(count) => MessageView::Point(*count),
            MessageType::TeamMessage((step, num, team)) => MessageView::Team(
                *step,
                *num,
                team.deep_view(),
            ),
            MessageType::KNumMessage((step, num, k_num)) => MessageView::KNum(*step, *num, k_num@),
            MessageType::ResetKNumMessage(k_num) => MessageView::ResetKNum(k_num@),
            MessageType::HandshakingMessage((port, step)) => MessageView::Handshaking(port@, *step),
        }
    }
}

} // verus!
