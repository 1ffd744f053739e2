//! The windows of the program: notes and timers, named by kind and identifier.
use vstd::prelude::*;

use crate::ordering::{is_text_before, lemma_text_order, text_before};
use crate::ordering::SortKey;
use crate::views::views;

verus! {

/// What a window shows.
#[derive(Debug, Clone, Copy, PartialEq, Eq, Structural)]
pub enum GroupMemberKind {
    Note,
    Timer,
}

/// A window that can belong to a linked group.
#[derive(Debug, PartialEq, Eq)]
pub struct StoredGroupMember {
    pub kind: GroupMemberKind,
    pub id: String,
}

/// A window, as contracts speak of it.
pub struct MemberView {
    pub kind: GroupMemberKind,
    pub id: Seq<char>,
}

impl View for StoredGroupMember {
    type V = MemberView;

    open spec fn view(&self) -> MemberView {
        MemberView { kind: self.kind, id: self.id@ }
    }
}

impl Clone for StoredGroupMember {
    fn clone(&self) -> (copy: Self)
        ensures
            copy@ == self@,
    {
        StoredGroupMember { kind: self.kind, id: self.id.clone() }
    }
}

/// What the label of every window of a kind begins with.
pub open spec fn label_prefix(kind: GroupMemberKind) -> Seq<char> {
    match kind {
        GroupMemberKind::Note => "sticky_"@,
        GroupMemberKind::Timer => "timer_"@,
    }
}

impl MemberView {
    /// The label under which the window system knows the window.
    pub open spec fn window_label(self) -> Seq<char> {
        label_prefix(self.kind) + self.id
    }
}

/// A window label that names neither a note nor a timer.
#[derive(Debug)]
pub struct UnknownWindow {
    pub label: String,
}

/// Whether `text` begins with `prefix`.
pub open spec fn begins_with(text: Seq<char>, prefix: Seq<char>) -> bool {
    prefix.len() <= text.len() && text.subrange(0, prefix.len() as int) == prefix
}

/// What follows `prefix` in `text`.
pub open spec fn after_prefix(text: Seq<char>, prefix: Seq<char>) -> Seq<char> {
    text.subrange(prefix.len() as int, text.len() as int)
}

/// The window that a label names: a note by its prefix, else a timer by its prefix.
pub open spec fn label_member(label: Seq<char>) -> Option<MemberView> {
    if begins_with(label, label_prefix(GroupMemberKind::Note)) {
        Some(
            MemberView {
                kind: GroupMemberKind::Note,
                id: after_prefix(label, label_prefix(GroupMemberKind::Note)),
            },
        )
    } else if begins_with(label, label_prefix(GroupMemberKind::Timer)) {
        Some(
            MemberView {
                kind: GroupMemberKind::Timer,
                id: after_prefix(label, label_prefix(GroupMemberKind::Timer)),
            },
        )
    } else {
        None
    }
}

/// What follows `prefix` in `text`, if `text` begins with it.
fn strip_prefix(text: &str, prefix: &str) -> (rest: Option<String>)
    ensures
        match rest {
            Some(rest) => begins_with(text@, prefix@) && rest@ == after_prefix(text@, prefix@),
            None => !begins_with(text@, prefix@),
        },
{
    let text_len: usize = text.unicode_len();
    let prefix_len: usize = prefix.unicode_len();
    if prefix_len > text_len {
        return None;
    }
    if text.substring_char(0, prefix_len).to_owned() == prefix.to_owned() {
        Some(text.substring_char(prefix_len, text_len).to_owned())
    } else {
        None
    }
}

/// What the label of every window of a kind begins with.
fn kind_prefix(kind: GroupMemberKind) -> (prefix: &'static str)
    ensures
        prefix@ == label_prefix(kind),
{
    match kind {
        GroupMemberKind::Note => "sticky_",
        GroupMemberKind::Timer => "timer_",
    }
}

impl StoredGroupMember {
    /// The note with the given identifier.
    pub fn note(id: &str) -> (member: Self)
        ensures
            member@ == (MemberView { kind: GroupMemberKind::Note, id: id@ }),
    {
        StoredGroupMember { kind: GroupMemberKind::Note, id: id.to_owned() }
    }

    /// The timer with the given identifier.
    pub fn timer(id: &str) -> (member: Self)
        ensures
            member@ == (MemberView { kind: GroupMemberKind::Timer, id: id@ }),
    {
        StoredGroupMember { kind: GroupMemberKind::Timer, id: id.to_owned() }
    }

    /// The label under which the window system knows the window.
    pub fn window_label(&self) -> (label: String)
        ensures
            label@ == self@.window_label(),
    {
        kind_prefix(self.kind).to_owned().concat(self.id.as_str())
    }

    /// The key of the window in the state of running moves.
    ///
    /// A note and a timer may share an identifier, so the key is the label.
    pub fn runtime_key(&self) -> (key: String)
        ensures
            key@ == self@.window_label(),
    {
        self.window_label()
    }

    /// The window that a label names.
    pub fn from_window_label(label: &str) -> (member: Result<Self, UnknownWindow>)
        ensures
            match member {
                Ok(member) => label_member(label@) == Some(member@),
                Err(unknown) => label_member(label@) is None && unknown.label@ == label@,
            },
    {
        if let Some(id) = strip_prefix(label, kind_prefix(GroupMemberKind::Note)) {
            return Ok(StoredGroupMember { kind: GroupMemberKind::Note, id });
        }
        if let Some(id) = strip_prefix(label, kind_prefix(GroupMemberKind::Timer)) {
            return Ok(StoredGroupMember { kind: GroupMemberKind::Timer, id });
        }
        Err(UnknownWindow { label: label.to_owned() })
    }

    /// Whether two values name the same window.
    pub fn same_window(&self, other: &Self) -> (same: bool)
        ensures
            same == (self@ == other@),
    {
        self.kind == other.kind && self.id == other.id
    }
}

/// The identifier of the note that a label names.
pub fn note_id_from_label(label: &str) -> (id: Result<String, UnknownWindow>)
    ensures
        match id {
            Ok(id) => label_member(label@) == Some(
                MemberView { kind: GroupMemberKind::Note, id: id@ },
            ),
            Err(unknown) => {
                &&& unknown.label@ == label@
                &&& match label_member(label@) {
                    Some(member) => member.kind != GroupMemberKind::Note,
                    None => true,
                }
            },
        },
{
    match strip_prefix(label, kind_prefix(GroupMemberKind::Note)) {
        Some(id) => Ok(id),
        None => Err(UnknownWindow { label: label.to_owned() }),
    }
}

/// Finds the focused note or timer among the open windows, each given by its
/// label and whether the window system says that it is focused.
pub fn get_focused_window(windows: &Vec<(String, bool)>) -> (focused: Option<usize>)
    ensures
        match focused {
            Some(i) => {
                &&& i < windows@.len()
                &&& windows@[i as int].1
                &&& label_member(windows@[i as int].0@) is Some
                &&& forall|j: int|
                    0 <= j < i ==> !((#[trigger] windows@[j]).1 && label_member(
                        windows@[j].0@,
                    ) is Some)
            },
            None => forall|j: int|
                0 <= j < windows@.len() ==> !((#[trigger] windows@[j]).1 && label_member(
                    windows@[j].0@,
                ) is Some),
        },
{
    let mut i: usize = 0;
    while i < windows.len()
        invariant
            i <= windows@.len(),
            forall|j: int|
                0 <= j < i ==> !((#[trigger] windows@[j]).1 && label_member(
                    windows@[j].0@,
                ) is Some),
        decreases windows.len() - i,
    {
        if windows[i].1 {
            if let Ok(_) = StoredGroupMember::from_window_label(windows[i].0.as_str()) {
                return Some(i);
            }
        }
        i += 1;
    }
    None
}

/// Whether a list of windows holds a given one.
pub fn contains_member(members: &Vec<StoredGroupMember>, member: &StoredGroupMember) -> (contained:
    bool)
    ensures
        contained == views(members@).contains(member@),
{
    let mut i: usize = 0;
    while i < members.len()
        invariant
            i <= members@.len(),
            forall|j: int| 0 <= j < i ==> #[trigger] members@[j]@ != member@,
        decreases members.len() - i,
    {
        if members[i].same_window(member) {
            proof {
                assert(views(members@)[i as int] == member@);
            }
            return true;
        }
        i += 1;
    }
    proof {
        if views(members@).contains(member@) {
            let j = views(members@).index_of(member@);
            assert(members@[j]@ == member@);
        }
    }
    false
}

/// A copy of a list of windows.
pub fn copy_members(members: &Vec<StoredGroupMember>) -> (copy: Vec<StoredGroupMember>)
    ensures
        views(copy@) == views(members@),
{
    let copy = members.clone();
    assert(views(copy@) =~= views(members@));
    copy
}

/// The order of windows: notes before timers, and by identifier within a kind.
pub open spec fn member_before(a: MemberView, b: MemberView) -> bool {
    if a.kind != b.kind {
        a.kind == GroupMemberKind::Note
    } else {
        text_before(a.id, b.id)
    }
}

impl SortKey for StoredGroupMember {
    open spec fn before(self, other: Self) -> bool {
        member_before(self@, other@)
    }

    proof fn before_is_asymmetric(a: Self, b: Self) {
        lemma_text_order(a.id@, b.id@, a.id@);
    }

    proof fn before_splits(a: Self, b: Self, c: Self) {
        lemma_text_order(a.id@, b.id@, c.id@);
    }

    fn is_before(&self, other: &Self) -> (before: bool) {
        match (self.kind, other.kind) {
            (GroupMemberKind::Note, GroupMemberKind::Timer) => true,
            (GroupMemberKind::Timer, GroupMemberKind::Note) => false,
            _ => is_text_before(self.id.as_str(), other.id.as_str()),
        }
    }
}

/// A label made for a window names that window, so two windows never share a
/// label or a runtime key.
pub proof fn law_labels_name_their_window(member: MemberView, other: MemberView)
    ensures
        label_member(member.window_label()) == Some(member),
        member.window_label() == other.window_label() ==> member == other,
{
    lemma_label_names(member);
    lemma_label_names(other);
}

proof fn lemma_label_names(member: MemberView)
    ensures
        label_member(member.window_label()) == Some(member),
{
    reveal_strlit("sticky_");
    reveal_strlit("timer_");
    let label = member.window_label();
    let prefix = label_prefix(member.kind);
    assert(label.subrange(0, prefix.len() as int) =~= prefix);
    assert(after_prefix(label, prefix) =~= member.id);
    if member.kind == GroupMemberKind::Timer {
        assert(label[0] == 't');
        if begins_with(label, "sticky_"@) {
            assert(label.subrange(0, 7)[0] == 's');
        }
    }
}

} // verus!
