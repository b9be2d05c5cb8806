use vstd::prelude::*;
use crate::text::same_text;

verus! {

/// The grip at the side of a card by which the card is dragged to a new place in its list.
pub struct DragHandle;

/// `s` with the item at `from` taken out and put back at `to`; unchanged
/// when the positions are equal or either is out of range.
pub open spec fn moved<T>(s: Seq<T>, from: int, to: int) -> Seq<T> {
    if from == to || !(0 <= from < s.len()) || !(0 <= to < s.len()) {
        s
    } else {
        s.remove(from).insert(to, s[from])
    }
}

/// Moves the item at `from` to position `to`, shifting those between.
pub fn move_item<T>(items: &mut Vec<T>, from: usize, to: usize)
    ensures
        final(items)@ == moved(old(items)@, from as int, to as int),
{
    if from == to || from >= items.len() || to >= items.len() {
        return;
    }
    let item = items.remove(from);
    items.insert(to, item);
}

/// Moving an item back to where it came from undoes the move.
pub proof fn law_move_undo<T>(s: Seq<T>, from: int, to: int)
    ensures
        moved(moved(s, from, to), to, from) == s,
{
    if !(from == to || !(0 <= from < s.len()) || !(0 <= to < s.len())) {
        let m = moved(s, from, to);
        assert(m.len() == s.len());
        assert(m[to] == s[from]);
        assert(m.remove(to) =~= s.remove(from));
        assert(s.remove(from).insert(from, s[from]) =~= s);
    }
}

/// A move puts the moved item at `to` and shifts the items between the two places by one,
/// keeping their order; items outside the two places stay where they were.
pub proof fn law_move_shifts<T>(s: Seq<T>, from: int, to: int)
    requires
        0 <= from < s.len(),
        0 <= to < s.len(),
    ensures
        moved(s, from, to).len() == s.len(),
        moved(s, from, to)[to] == s[from],
        from < to ==> forall|k: int| from <= k < to ==> #[trigger] moved(s, from, to)[k] == s[k + 1],
        to < from ==> forall|k: int| to < k <= from ==> #[trigger] moved(s, from, to)[k] == s[k - 1],
        forall|k: int|
            0 <= k < s.len() && (k < from || k > to) && (k < to || k > from)
                ==> #[trigger] moved(s, from, to)[k] == s[k],
{
}

/// A move keeps every item: the items are the same, only their order changes.
pub proof fn law_move_permutes<T>(s: Seq<T>, from: int, to: int)
    ensures
        moved(s, from, to).to_multiset() == s.to_multiset(),
        moved(s, from, to).len() == s.len(),
        0 <= from < s.len() && 0 <= to < s.len() ==> moved(s, from, to)[to] == s[from],
{
    broadcast use vstd::seq_lib::group_to_multiset_ensures;
    if !(from == to || !(0 <= from < s.len()) || !(0 <= to < s.len())) {
        let r = s.remove(from);
        assert(s =~= r.insert(from, s[from]));
    }
}

/// The text an optional string holds.
pub open spec fn opt_text(o: Option<String>) -> Option<Seq<char>> {
    match o {
        Some(t) => Some(t@),
        None => None,
    }
}

/// The drag of a card within its list: the key of the card whose handle is held, and the
/// key of the card it is over.
pub struct DragState {
    pub src: Option<String>,
    pub target: Option<String>,
}

/// What happens to a drag while the cards are drawn.
pub enum DragEvent {
    /// The handle of the card with this key is grabbed.
    Started(String),
    /// The handle of the card with this key is let go.
    Stopped(String),
    /// Every card is drawn; the card the dragged one was over, if any.
    Settled(Option<String>),
}

impl DragState {
    /// No drag under way.
    pub fn new() -> (r: DragState)
        ensures
            r.src is None,
            r.target is None,
    {
        DragState { src: None, target: None }
    }
}

/// The highlight of the card keyed `key`: 2 for the card the dragged one is over, 0 for any other.
pub fn card_highlight(s: &DragState, key: &str) -> (h: u8)
    ensures
        h == (if s.target is Some && s.target->0@ == key@ {
            2u8
        } else {
            0u8
        }),
{
    match &s.target {
        Some(t) => if same_text(t.as_str(), key) {
            2
        } else {
            0
        },
        None => 0,
    }
}

/// The card the dragged one is over, after drawing the card keyed `key`: that card when a
/// drag of another card is under way, the pointer is on it and no card was found before;
/// otherwise the one found before.
pub fn hover_target(s: &DragState, key: &str, pointer_in: bool, found: Option<String>) -> (r:
    Option<String>)
    ensures
        opt_text(r) == (if s.src is Some && s.src->0@ != key@ && pointer_in && found is None {
            Some(key@)
        } else {
            opt_text(found)
        }),
{
    match &s.src {
        Some(src) => {
            if !same_text(src.as_str(), key) && pointer_in && found.is_none() {
                return Some(String::from_str(key));
            }
            found
        },
        None => found,
    }
}

/// The next state of a drag after `ev`, and the pair of keys (dragged card, card it was
/// dropped on) when the card being dragged is let go over another card:
/// - a grab starts a drag of that card, over no card yet;
/// - letting go ends the drag, and drops when the card let go is the dragged one and it is
///   over a card;
/// - once every card is drawn, a drag under way is over the card found, and without a drag
///   there is no such card.
pub fn drag_step(s: &mut DragState, ev: DragEvent) -> (drop: Option<(String, String)>)
    ensures
        match ev {
            DragEvent::Started(k) => {
                &&& opt_text(final(s).src) == Some(k@)
                &&& final(s).target is None
                &&& drop is None
            },
            DragEvent::Stopped(k) => {
                &&& final(s).src is None
                &&& final(s).target is None
                &&& drop is Some <==> (opt_text(old(s).src) == Some(k@) && old(s).target is Some)
                &&& drop is Some ==> drop.unwrap().0@ == k@ && drop.unwrap().1@ == old(s).target->0@
            },
            DragEvent::Settled(found) => {
                &&& final(s).src == old(s).src
                &&& opt_text(final(s).target) == (if old(s).src is Some {
                    opt_text(found)
                } else {
                    None
                })
                &&& drop is None
            },
        },
{
    match ev {
        DragEvent::Started(k) => {
            s.src = Some(k);
            s.target = None;
            None
        },
        DragEvent::Stopped(k) => {
            let mut src: Option<String> = None;
            let mut target: Option<String> = None;
            std::mem::swap(&mut src, &mut s.src);
            std::mem::swap(&mut target, &mut s.target);
            match (src, target) {
                (Some(a), Some(t)) => {
                    if same_text(a.as_str(), k.as_str()) {
                        Some((k, t))
                    } else {
                        None
                    }
                },
                _ => None,
            }
        },
        DragEvent::Settled(found) => {
            if s.src.is_some() {
                s.target = found;
            } else {
                s.target = None;
            }
            None
        },
    }
}

} // verus!
