//! Walking between an identifier and one of its ancestors or descendants.
//!
//! An identifier is a path of segments, each led by a dot. All of this is
//! arithmetic on the text: no tree is consulted.

use super::text::str_same;
use vstd::prelude::*;

verus! {

/// Whether position `index` of `id` ends a segment: a dot stands there, or
/// the identifier ends there.
pub open spec fn spec_is_boundary(id: Seq<char>, index: int) -> bool {
    (0 <= index < id.len() && id[index] == '.') || index == id.len()
}

/// Whether `ancestor` is `descendant` or lies above it: it is a prefix that
/// ends on a boundary.
pub open spec fn spec_is_ancestor(ancestor: Seq<char>, descendant: Seq<char>) -> bool {
    ancestor.is_prefix_of(descendant) && spec_is_boundary(descendant, ancestor.len() as int)
}

/// The last position of `ch` in `s`.
pub open spec fn spec_last_index_of(s: Seq<char>, ch: char) -> Option<int>
    decreases s.len(),
{
    if s.len() == 0 {
        None
    } else if s.last() == ch {
        Some(s.len() - 1)
    } else {
        spec_last_index_of(s.drop_last(), ch)
    }
}

/// The identifier one level up: everything before the last dot.
pub open spec fn spec_parent_id(id: Seq<char>) -> Seq<char> {
    match spec_last_index_of(id, '.') {
        Some(i) => id.take(i),
        None => Seq::empty(),
    }
}

/// The first position at or after `from` where a segment of `s` ends.
pub open spec fn segment_end(s: Seq<char>, from: int) -> int
    decreases s.len() - from,
{
    if from >= s.len() {
        s.len() as int
    } else if from >= 0 && s[from] == '.' {
        from
    } else {
        segment_end(s, from + 1)
    }
}

/// The identifier one level below `ancestor_id` on the way to
/// `destination_id`.
pub open spec fn spec_next_descendant_id(ancestor_id: Seq<char>, destination_id: Seq<char>) -> Seq<
    char,
> {
    if ancestor_id == destination_id {
        ancestor_id
    } else {
        destination_id.take(segment_end(destination_id, ancestor_id.len() as int + 1))
    }
}

/// What `spec_last_index_of` finds.
pub proof fn lemma_last_index_of(s: Seq<char>, ch: char)
    ensures
        match spec_last_index_of(s, ch) {
            Some(i) => 0 <= i < s.len() && s[i] == ch && forall|j: int|
                i < j < s.len() ==> s[j] != ch,
            None => forall|j: int| 0 <= j < s.len() ==> s[j] != ch,
        },
    decreases s.len(),
{
    if s.len() != 0 && s.last() != ch {
        let t = s.drop_last();
        lemma_last_index_of(t, ch);
        assert forall|j: int| 0 <= j < t.len() implies t[j] == s[j] by {}
        match spec_last_index_of(t, ch) {
            Some(i) => {
                assert(s[i] == ch);
                assert forall|j: int| i < j < s.len() implies s[j] != ch by {
                    if j < t.len() {
                        assert(t[j] != ch);
                    }
                }
            },
            None => {
                assert forall|j: int| 0 <= j < s.len() implies s[j] != ch by {
                    if j < t.len() {
                        assert(t[j] != ch);
                    }
                }
            },
        }
    }
}

/// What `segment_end` finds.
pub proof fn lemma_segment_end(s: Seq<char>, from: int)
    requires
        0 <= from,
    ensures
        from <= s.len() ==> from <= segment_end(s, from) <= s.len(),
        from > s.len() ==> segment_end(s, from) == s.len(),
        segment_end(s, from) < s.len() ==> s[segment_end(s, from)] == '.',
        forall|j: int| from <= j < segment_end(s, from) ==> s[j] != '.',
    decreases s.len() - from,
{
    if from < s.len() && s[from] != '.' {
        lemma_segment_end(s, from + 1);
    }
}

/// An identifier is its own ancestor.
pub proof fn lemma_ancestor_reflexive(id: Seq<char>)
    ensures
        spec_is_ancestor(id, id),
{
    assert(id.is_prefix_of(id));
}

/// The ancestor of an ancestor is an ancestor.
pub proof fn lemma_ancestor_transitive(a: Seq<char>, b: Seq<char>, c: Seq<char>)
    requires
        spec_is_ancestor(a, b),
        spec_is_ancestor(b, c),
    ensures
        spec_is_ancestor(a, c),
{
    assert(a.is_prefix_of(c)) by {
        assert(a =~= b.subrange(0, a.len() as int));
        assert(b =~= c.subrange(0, b.len() as int));
        assert(a =~= c.subrange(0, a.len() as int));
    }
    if a.len() < b.len() {
        assert(b[a.len() as int] == '.');
        assert(c[a.len() as int] == b[a.len() as int]);
    }
}

/// An identifier with a segment appended lies below it, and so does the
/// parent of the longer identifier.
pub proof fn lemma_appended_is_below(id: Seq<char>, segment: Seq<char>)
    ensures
        spec_is_ancestor(id, id + seq!['.'] + segment),
        spec_is_ancestor(id, spec_parent_id(id + seq!['.'] + segment)),
{
    let child = id + seq!['.'] + segment;
    assert(id =~= child.subrange(0, id.len() as int));
    assert(child[id.len() as int] == '.');
    lemma_last_index_of(child, '.');
    let last = spec_last_index_of(child, '.')->0;
    assert(last >= id.len());
    let parent = child.take(last);
    assert(id =~= parent.subrange(0, id.len() as int));
    if last > id.len() {
        assert(parent[id.len() as int] == '.');
    }
}

pub fn is_boundary(id: &str, index: usize) -> (b: bool)
    ensures
        b == spec_is_boundary(id@, index as int),
{
    let len = id.unicode_len();
    if index < len {
        id.get_char(index) == '.'
    } else {
        index == len
    }
}

/// Whether `a` is a prefix of `b`.
fn is_prefix(a: &str, b: &str) -> (r: bool)
    ensures
        r == a@.is_prefix_of(b@),
{
    let n = a.unicode_len();
    if n > b.unicode_len() {
        return false;
    }
    let mut i: usize = 0;
    while i < n
        invariant
            i <= n,
            n == a@.len(),
            n <= b@.len(),
            forall|j: int| 0 <= j < i ==> a@[j] == b@[j],
        decreases n - i,
    {
        if a.get_char(i) != b.get_char(i) {
            return false;
        }
        i = i + 1;
    }
    assert(a@ =~= b@.subrange(0, a@.len() as int));
    true
}

pub fn is_ancestor_id_of(ancestor_id: &str, descendant_id: &str) -> (b: bool)
    ensures
        b == spec_is_ancestor(ancestor_id@, descendant_id@),
{
    is_prefix(ancestor_id, descendant_id) && is_boundary(descendant_id, ancestor_id.unicode_len())
}

pub fn last_index_of(string: &str, ch: char) -> (r: Option<usize>)
    ensures
        r is Some == spec_last_index_of(string@, ch) is Some,
        r matches Some(i) ==> spec_last_index_of(string@, ch) == Some(i as int),
{
    let mut i: usize = string.unicode_len();
    proof {
        assert(string@.take(string@.len() as int) =~= string@);
    }
    while i > 0
        invariant
            i <= string@.len(),
            spec_last_index_of(string@, ch) == spec_last_index_of(string@.take(i as int), ch),
        decreases i,
    {
        proof {
            assert(string@.take(i as int).drop_last() =~= string@.take(i - 1));
        }
        if string.get_char(i - 1) == ch {
            return Some(i - 1);
        }
        i = i - 1;
    }
    None
}

pub fn parent_id(id: &str) -> (parent: String)
    ensures
        parent@ == spec_parent_id(id@),
{
    match last_index_of(id, '.') {
        Some(index) => {
            proof {
                lemma_last_index_of(id@, '.');
            }
            let parent = String::from_str(id.substring_char(0, index));
            assert(parent@ =~= id@.take(index as int));
            parent
        },
        None => String::new(),
    }
}

pub fn next_descendant_id(ancestor_id: &str, destination_id: &str) -> (id: String)
    ensures
        id@ == spec_next_descendant_id(ancestor_id@, destination_id@),
{
    if str_same(ancestor_id, destination_id) {
        String::from_str(ancestor_id)
    } else {
        let length = destination_id.unicode_len();
        let start = ancestor_id.unicode_len();
        if start >= length {
            proof {
                lemma_segment_end(destination_id@, start + 1);
                assert(destination_id@.take(length as int) =~= destination_id@);
            }
            return String::from_str(destination_id);
        }
        let mut index: usize = start + 1;
        while index < length && destination_id.get_char(index) != '.'
            invariant
                start + 1 <= index <= length,
                length == destination_id@.len(),
                segment_end(destination_id@, start + 1) == segment_end(
                    destination_id@,
                    index as int,
                ),
            decreases length - index,
        {
            index = index + 1;
        }
        let id = String::from_str(destination_id.substring_char(0, index));
        assert(id@ =~= destination_id@.take(index as int));
        id
    }
}

/// The identifiers on the way from `start` to `stop`, both included: upward
/// where `stop` is an ancestor of `start`, downward otherwise. `fuel` bounds
/// the number of steps.
pub open spec fn spec_path(start: Seq<char>, stop: Seq<char>, up: bool, fuel: nat) -> Seq<
    Seq<char>,
>
    decreases fuel,
{
    if start == stop || fuel == 0 {
        seq![start]
    } else {
        let next = if up {
            spec_parent_id(start)
        } else {
            spec_next_descendant_id(start, stop)
        };
        seq![start] + spec_path(next, stop, up, (fuel - 1) as nat)
    }
}

/// The distance left between `id` and `stop`, a bound on the steps still
/// to take.
pub open spec fn steps_left(id: Seq<char>, stop: Seq<char>, up: bool) -> nat {
    if id == stop {
        0
    } else if up {
        id.len()
    } else if id.len() < stop.len() {
        (stop.len() - id.len() + 1) as nat
    } else {
        1
    }
}

/// One step towards `stop` brings it nearer.
pub proof fn lemma_step(id: Seq<char>, stop: Seq<char>, up: bool)
    requires
        id != stop,
        up ==> spec_is_ancestor(stop, id),
    ensures
        ({
            let next = if up {
                spec_parent_id(id)
            } else {
                spec_next_descendant_id(id, stop)
            };
            steps_left(next, stop, up) < steps_left(id, stop, up) && (up ==> spec_is_ancestor(
                stop,
                next,
            ))
        }),
{
    if up {
        lemma_last_index_of(id, '.');
        assert(stop.len() < id.len()) by {
            if stop.len() >= id.len() {
                assert(stop =~= id);
            }
        }
        assert(id[stop.len() as int] == '.');
        let i = spec_last_index_of(id, '.')->0;
        let next = id.take(i);
        assert(i >= stop.len());
        assert(stop =~= next.subrange(0, stop.len() as int));
    } else {
        lemma_segment_end(stop, id.len() as int + 1);
        let next = stop.take(segment_end(stop, id.len() as int + 1));
        if id.len() >= stop.len() {
            assert(next =~= stop);
        }
    }
}

/// Whether a walk from `start` to `stop` hands out `id`.
pub open spec fn handed_out(
    start: Seq<char>,
    stop: Seq<char>,
    skip_first: bool,
    skip_last: bool,
    id: Seq<char>,
) -> bool {
    (!skip_first || id != start) && (!skip_last || id != stop)
}

/// The identifiers of `path` that a walk from `start` to `stop` hands out.
pub open spec fn kept(
    path: Seq<Seq<char>>,
    start: Seq<char>,
    stop: Seq<char>,
    skip_first: bool,
    skip_last: bool,
) -> Seq<Seq<char>>
    decreases path.len(),
{
    if path.len() == 0 {
        Seq::empty()
    } else {
        let rest = kept(path.drop_last(), start, stop, skip_first, skip_last);
        if handed_out(start, stop, skip_first, skip_last, path.last()) {
            rest.push(path.last())
        } else {
            rest
        }
    }
}

/// The identifiers that a walk from `start` to `stop` hands out, in order.
/// `skip_first` leaves `start` out, `skip_last` leaves `stop` out.
pub open spec fn spec_visited(
    start: Seq<char>,
    stop: Seq<char>,
    skip_first: bool,
    skip_last: bool,
) -> Seq<Seq<char>> {
    let up = spec_is_ancestor(stop, start);
    kept(
        spec_path(start, stop, up, steps_left(start, stop, up)),
        start,
        stop,
        skip_first,
        skip_last,
    )
}

/// The identifiers from `start` to `stop`, both included.
pub fn path_ids(start: &str, stop: &str) -> (ids: Vec<String>)
    ensures
        ids@.len() >= 1,
        Seq::new(ids@.len(), |i: int| ids@[i]@) == spec_path(
            start@,
            stop@,
            spec_is_ancestor(stop@, start@),
            steps_left(start@, stop@, spec_is_ancestor(stop@, start@)),
        ),
{
    let up = is_ancestor_id_of(stop, start);
    let mut ids: Vec<String> = Vec::new();
    let mut id = String::from_str(start);
    let ghost whole = spec_path(start@, stop@, up, steps_left(start@, stop@, up));
    loop
        invariant_except_break
            up ==> spec_is_ancestor(stop@, id@),
            whole == Seq::new(ids@.len(), |i: int| ids@[i]@) + spec_path(
                id@,
                stop@,
                up,
                steps_left(id@, stop@, up),
            ),
        invariant
            up == spec_is_ancestor(stop@, start@),
            whole == spec_path(start@, stop@, up, steps_left(start@, stop@, up)),
        ensures
            ids@.len() >= 1,
            whole == Seq::new(ids@.len(), |i: int| ids@[i]@),
        decreases steps_left(id@, stop@, up),
    {
        let done = str_same(id.as_str(), stop);
        let ghost before = Seq::new(ids@.len(), |i: int| ids@[i]@);
        let ghost here = id@;
        let next = if done {
            String::new()
        } else if up {
            parent_id(id.as_str())
        } else {
            next_descendant_id(id.as_str(), stop)
        };
        ids.push(id);
        proof {
            assert(Seq::new(ids@.len(), |i: int| ids@[i]@) =~= before + seq![here]);
        }
        if done {
            proof {
                assert(spec_path(here, stop@, up, steps_left(here, stop@, up)) =~= seq![here]);
            }
            break ;
        }
        proof {
            lemma_step(here, stop@, up);
            lemma_path_fuel(next@, stop@, up, (steps_left(here, stop@, up) - 1) as nat);
            assert(before + (seq![here] + spec_path(
                next@,
                stop@,
                up,
                (steps_left(here, stop@, up) - 1) as nat,
            )) =~= (before + seq![here]) + spec_path(
                next@,
                stop@,
                up,
                (steps_left(here, stop@, up) - 1) as nat,
            ));
        }
        id = next;
    }
    ids
}

/// Any fuel that covers the distance gives the same path.
pub proof fn lemma_path_fuel(id: Seq<char>, stop: Seq<char>, up: bool, fuel: nat)
    requires
        up ==> spec_is_ancestor(stop, id),
        fuel >= steps_left(id, stop, up),
    ensures
        spec_path(id, stop, up, fuel) == spec_path(id, stop, up, steps_left(id, stop, up)),
    decreases fuel,
{
    if id != stop {
        lemma_step(id, stop, up);
        let next = if up {
            spec_parent_id(id)
        } else {
            spec_next_descendant_id(id, stop)
        };
        lemma_path_fuel(next, stop, up, (fuel - 1) as nat);
        lemma_path_fuel(next, stop, up, (steps_left(id, stop, up) - 1) as nat);
    }
}

/// The identifiers that a walk from `start` to `stop` hands out, in order.
pub fn visited_ids(start: &str, stop: &str, skip_first: bool, skip_last: bool) -> (ids: Vec<String>)
    ensures
        Seq::new(ids@.len(), |i: int| ids@[i]@) == spec_visited(
            start@,
            stop@,
            skip_first,
            skip_last,
        ),
{
    let all = path_ids(start, stop);
    let ghost path = Seq::new(all@.len(), |i: int| all@[i]@);
    let mut ids: Vec<String> = Vec::new();
    let mut i: usize = 0;
    assert(Seq::new(ids@.len(), |a: int| ids@[a]@) =~= kept(
        path.take(0),
        start@,
        stop@,
        skip_first,
        skip_last,
    ));
    while i < all.len()
        invariant
            i <= all@.len(),
            path == Seq::new(all@.len(), |a: int| all@[a]@),
            Seq::new(ids@.len(), |a: int| ids@[a]@) == kept(
                path.take(i as int),
                start@,
                stop@,
                skip_first,
                skip_last,
            ),
        decreases all@.len() - i,
    {
        let ghost held = Seq::new(ids@.len(), |a: int| ids@[a]@);
        proof {
            assert(path.take(i + 1).drop_last() =~= path.take(i as int));
            assert(path.take(i + 1).last() == all@[i as int]@);
        }
        let id = all[i].as_str();
        if (!skip_first || !str_same(id, start)) && (!skip_last || !str_same(id, stop)) {
            ids.push(all[i].clone());
            proof {
                assert(Seq::new(ids@.len(), |a: int| ids@[a]@) =~= held.push(all@[i as int]@));
            }
        }
        i = i + 1;
    }
    proof {
        assert(path.take(i as int) =~= path);
    }
    ids
}

/// Walks from `start` to `stop` and hands each identifier that
/// `visited_ids` lists to `callback`, with the direction of the walk:
/// true for upward. Stops early when `callback` returns false.
pub fn traverse_path<F>(start: &str, stop: &str, skip_first: bool, skip_last: bool, mut callback: F)
    where F: FnMut(&str, bool) -> bool
    requires
        forall|id: &str, up: bool| call_requires(callback, (id, up)),
{
    let up = is_ancestor_id_of(stop, start);
    let ids = visited_ids(start, stop, skip_first, skip_last);
    let mut i: usize = 0;
    while i < ids.len()
        invariant
            i <= ids.len(),
            forall|id: &str, up: bool| call_requires(callback, (id, up)),
        decreases ids.len() - i,
    {
        if !callback(ids[i].as_str(), up) {
            break ;
        }
        i = i + 1;
    }
}

} // verus!
