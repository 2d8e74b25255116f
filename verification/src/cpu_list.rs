//! The grammar of core lists such as `0-3,8,10-11`: items separated by commas,
//! each one number or two numbers joined by a dash, whitespace allowed around
//! every item and every number.

use crate::text::{
    is_blank, is_whitespace, lemma_split_joined, lemma_split_nonempty, lemma_split_single,
    lemma_trim, lemma_trim_padded, parse_u32, parse_u32_spec, split, split_first, trim,
    trim_slice,
};
use vstd::prelude::*;

verus! {

/// The bounds that one item of a list stands for, both inclusive: a single
/// number bounds itself. An item that is neither form stands for nothing.
pub open spec fn token_range(token: Seq<char>) -> Option<(u32, u32)> {
    let parts = split(trim(token), '-');
    if parts.len() == 1 {
        match parse_u32_spec(parts[0]) {
            Some(n) => Some((n, n)),
            None => None,
        }
    } else if parts.len() == 2 {
        match (parse_u32_spec(trim(parts[0])), parse_u32_spec(trim(parts[1]))) {
            (Some(first), Some(last)) => Some((first, last)),
            _ => None,
        }
    } else {
        None
    }
}

/// Whether the item `token` names the core `cpu`.
pub open spec fn token_covers(token: Seq<char>, cpu: u32) -> bool {
    match token_range(token) {
        Some((first, last)) => first <= cpu <= last,
        None => false,
    }
}

/// Whether one of `tokens` names the core `cpu`.
pub open spec fn any_covers(tokens: Seq<Seq<char>>, cpu: u32) -> bool {
    exists|k: int| 0 <= k < tokens.len() && token_covers(#[trigger] tokens[k], cpu)
}

/// Whether the list `list` names the core `cpu`.
pub open spec fn list_covers(list: Seq<char>, cpu: u32) -> bool {
    any_covers(split(list, ','), cpu)
}

/// A core is named by a sequence of items exactly when the first item or one
/// of the others names it.
pub proof fn lemma_any_covers_step(first: Seq<char>, rest: Seq<Seq<char>>, cpu: u32)
    ensures
        any_covers(seq![first] + rest, cpu) == (token_covers(first, cpu) || any_covers(rest, cpu)),
{
    let all = seq![first] + rest;
    if any_covers(all, cpu) {
        let k = choose|k: int| 0 <= k < all.len() && token_covers(#[trigger] all[k], cpu);
        if k > 0 {
            assert(all[k] == rest[k - 1]);
        }
    }
    if token_covers(first, cpu) {
        assert(all[0] == first);
    }
    if any_covers(rest, cpu) {
        let k = choose|k: int| 0 <= k < rest.len() && token_covers(#[trigger] rest[k], cpu);
        assert(all[k + 1] == rest[k]);
    }
}

/// A single item names a core exactly when a sequence of that item alone
/// does.
pub proof fn lemma_any_covers_single(token: Seq<char>, cpu: u32)
    ensures
        any_covers(seq![token], cpu) == token_covers(token, cpu),
{
    let all = seq![token];
    if token_covers(token, cpu) {
        assert(all[0] == token);
    }
}

/// A core is named by two runs of items together exactly when one of the
/// runs names it.
pub proof fn lemma_any_covers_concat(a: Seq<Seq<char>>, b: Seq<Seq<char>>, cpu: u32)
    ensures
        any_covers(a + b, cpu) == (any_covers(a, cpu) || any_covers(b, cpu)),
{
    let all = a + b;
    if any_covers(all, cpu) {
        let k = choose|k: int| 0 <= k < all.len() && token_covers(#[trigger] all[k], cpu);
        if k < a.len() {
            assert(all[k] == a[k]);
        } else {
            assert(all[k] == b[k - a.len()]);
        }
    }
    if any_covers(a, cpu) {
        let k = choose|k: int| 0 <= k < a.len() && token_covers(#[trigger] a[k], cpu);
        assert(all[k] == a[k]);
    }
    if any_covers(b, cpu) {
        let k = choose|k: int| 0 <= k < b.len() && token_covers(#[trigger] b[k], cpu);
        assert(all[k + a.len()] == b[k]);
    }
}

/// Two lists joined by a comma name the cores that either of them names:
/// what one part of a list holds does not change what another part names.
pub proof fn lemma_list_covers_joined(a: Seq<char>, b: Seq<char>, cpu: u32)
    ensures
        list_covers(a + seq![','] + b, cpu) == (list_covers(a, cpu) || list_covers(b, cpu)),
{
    lemma_split_joined(a, b, ',');
    lemma_any_covers_concat(split(a, ','), split(b, ','), cpu);
}

/// An item that is neither a number nor a range of two numbers names no
/// core, and leaves the items around it as they are.
pub proof fn lemma_malformed_item_is_passed_over(
    before: Seq<char>,
    item: Seq<char>,
    after: Seq<char>,
    cpu: u32,
)
    requires
        !item.contains(','),
        token_range(item) is None,
    ensures
        !list_covers(item, cpu),
        list_covers(before + seq![','] + item + seq![','] + after, cpu) == (list_covers(
            before,
            cpu,
        ) || list_covers(after, cpu)),
{
    lemma_split_single(item, ',');
    lemma_any_covers_single(item, cpu);
    lemma_list_covers_joined(before, item, cpu);
    lemma_list_covers_joined(before + seq![','] + item, after, cpu);
}

/// The bounds that two numbers give, where both are numbers.
pub open spec fn bounds_of(first: Option<u32>, last: Option<u32>) -> Option<(u32, u32)> {
    match (first, last) {
        (Some(a), Some(b)) => Some((a, b)),
        _ => None,
    }
}

/// An item without a dash stands for the number that it writes, whatever
/// whitespace stands around the number.
pub proof fn lemma_number_item(item: Seq<char>)
    requires
        !item.contains('-'),
    ensures
        token_range(item) == bounds_of(parse_u32_spec(trim(item)), parse_u32_spec(trim(item))),
{
    lemma_trim(item);
    let t = trim(item);
    if t.contains('-') {
        let (from, to) = choose|from: int, to: int|
            0 <= from <= to <= item.len() && #[trigger] item.subrange(from, to) == t;
        let k = choose|k: int| 0 <= k < t.len() && t[k] == '-';
        assert(item[from + k] == '-');
    }
    lemma_split_single(t, '-');
}

/// An item with one dash stands for the numbers that the texts before and
/// after the dash write, whatever whitespace stands around either number.
pub proof fn lemma_range_item(first: Seq<char>, last: Seq<char>)
    requires
        !first.contains('-'),
        !last.contains('-'),
    ensures
        token_range(first + seq!['-'] + last) == bounds_of(
            parse_u32_spec(trim(first)),
            parse_u32_spec(trim(last)),
        ),
{
    let item = first + seq!['-'] + last;
    let dash = first.len() as int;
    assert(item[dash] == '-');
    lemma_trim(item);
    let (from, to) = choose|from: int, to: int|
        {
            &&& 0 <= from <= to <= item.len()
            &&& #[trigger] item.subrange(from, to) == trim(item)
            &&& is_blank(item.subrange(0, from))
            &&& is_blank(item.subrange(to, item.len() as int))
            &&& from < to ==> !is_whitespace(item[from]) && !is_whitespace(item[to - 1])
        };
    if from > dash {
        assert(item.subrange(0, from)[dash] == '-');
    }
    if to <= dash {
        assert(item.subrange(to, item.len() as int)[dash - to] == '-');
    }
    let head = first.subrange(from, dash);
    let tail = last.subrange(0, to - dash - 1);
    assert(trim(item) == head + seq!['-'] + tail);
    if head.contains('-') {
        let k = choose|k: int| 0 <= k < head.len() && head[k] == '-';
        assert(first[from + k] == '-');
    }
    if tail.contains('-') {
        let k = choose|k: int| 0 <= k < tail.len() && tail[k] == '-';
        assert(last[k] == '-');
    }
    lemma_split_joined(head, tail, '-');
    lemma_split_single(head, '-');
    lemma_split_single(tail, '-');
    let parts = split(trim(item), '-');
    assert(parts == seq![head] + seq![tail]);
    assert(parts.len() == 2);
    assert(parts[0] == head);
    assert(parts[1] == tail);
    let lead = first.subrange(0, from);
    assert(lead == item.subrange(0, from));
    assert(lead + head + Seq::<char>::empty() == first);
    lemma_trim_padded(lead, head, Seq::empty());
    let trail = last.subrange(to - dash - 1, last.len() as int);
    assert(trail == item.subrange(to, item.len() as int));
    assert(Seq::<char>::empty() + tail + trail == last);
    lemma_trim_padded(Seq::empty(), tail, trail);
}

/// Whitespace around an item does not change what the item stands for.
pub proof fn lemma_item_padded(before: Seq<char>, item: Seq<char>, after: Seq<char>)
    requires
        is_blank(before),
        is_blank(after),
    ensures
        token_range(before + item + after) == token_range(item),
        forall|cpu: u32| token_covers(before + item + after, cpu) == token_covers(item, cpu),
{
    lemma_trim_padded(before, item, after);
}

/// Whitespace around the numbers of a range, that is around the item and
/// around its dash, does not change what the range stands for.
pub proof fn lemma_range_padded(
    first: Seq<char>,
    last: Seq<char>,
    a: Seq<char>,
    b: Seq<char>,
    c: Seq<char>,
    d: Seq<char>,
)
    requires
        !first.contains('-'),
        !last.contains('-'),
        is_blank(a),
        is_blank(b),
        is_blank(c),
        is_blank(d),
    ensures
        token_range((a + first + b) + seq!['-'] + (c + last + d)) == token_range(
            first + seq!['-'] + last,
        ),
{
    let left = a + first + b;
    let right = c + last + d;
    if left.contains('-') {
        let k = choose|k: int| 0 <= k < left.len() && left[k] == '-';
        if k < a.len() {
            assert(a[k] == '-');
        } else if k < a.len() + first.len() {
            assert(first[k - a.len()] == '-');
        } else {
            assert(b[k - a.len() - first.len()] == '-');
        }
    }
    if right.contains('-') {
        let k = choose|k: int| 0 <= k < right.len() && right[k] == '-';
        if k < c.len() {
            assert(c[k] == '-');
        } else if k < c.len() + last.len() {
            assert(last[k - c.len()] == '-');
        } else {
            assert(d[k - c.len() - last.len()] == '-');
        }
    }
    lemma_range_item(left, right);
    lemma_range_item(first, last);
    lemma_trim_padded(a, first, b);
    lemma_trim_padded(c, last, d);
}

/// The bounds that the item `token` stands for.
pub fn parse_range(token: &[char]) -> (r: Option<(u32, u32)>)
    ensures
        r == token_range(token@),
{
    let item = trim_slice(token);
    let (head, tail) = split_first(item, '-');
    match tail {
        None => {
            match parse_u32(head) {
                Some(n) => Some((n, n)),
                None => None,
            }
        },
        Some(after) => {
            let (second, more) = split_first(after, '-');
            proof {
                if more is Some {
                    lemma_split_nonempty(more.unwrap()@, '-');
                }
            }
            if more.is_some() {
                return None;
            }
            match (parse_u32(trim_slice(head)), parse_u32(trim_slice(second))) {
                (Some(first), Some(last)) => Some((first, last)),
                _ => None,
            }
        },
    }
}

/// Whether the list `list` names the core `cpu`.
pub fn list_contains(list: &[char], cpu: u32) -> (r: bool)
    ensures
        r == list_covers(list@, cpu),
{
    let mut rest: &[char] = list;
    loop
        invariant
            list_covers(list@, cpu) == list_covers(rest@, cpu),
        decreases rest@.len(),
    {
        let (token, after) = split_first(rest, ',');
        let hit: bool = match parse_range(token) {
            Some((first, last)) => first <= cpu && cpu <= last,
            None => false,
        };
        match after {
            None => {
                proof {
                    lemma_any_covers_single(token@, cpu);
                }
                return hit;
            },
            Some(next) => {
                proof {
                    lemma_any_covers_step(token@, split(next@, ','), cpu);
                }
                if hit {
                    return true;
                }
                rest = next;
            },
        }
    }
}

/// Whether `v` ascends with no number twice.
pub open spec fn strictly_ascending(v: Seq<u32>) -> bool {
    forall|i: int, j: int| 0 <= i < j < v.len() ==> v[i] < v[j]
}

/// Puts `cpu` at its place in the ascending `v`, unless it is there already.
pub fn insert_ascending(v: &mut Vec<u32>, cpu: u32)
    requires
        strictly_ascending(old(v)@),
    ensures
        strictly_ascending(final(v)@),
        forall|x: u32|
            #![trigger final(v)@.contains(x)]
            #![trigger old(v)@.contains(x)]
            final(v)@.contains(x) <==> (old(v)@.contains(x) || x == cpu),
{
    let mut i: usize = v.len();
    while i > 0 && v[i - 1] > cpu
        invariant
            i <= v@.len(),
            v@ == old(v)@,
            forall|j: int| i <= j < v@.len() ==> v@[j] > cpu,
        decreases i,
    {
        i -= 1;
    }
    if i > 0 && v[i - 1] == cpu {
        assert(v@.contains(cpu));
        return;
    }
    v.insert(i, cpu);
    proof {
        let before = old(v)@;
        let after = v@;
        assert(after == before.insert(i as int, cpu));
        assert forall|a: int, b: int| 0 <= a < b < after.len() implies after[a] < after[b] by {
            if a < i && b > i {
                assert(after[a] == before[a]);
                assert(after[b] == before[b - 1]);
            }
        }
        assert forall|x: u32| after.contains(x) <==> (before.contains(x) || x == cpu) by {
            if after.contains(x) {
                let k = choose|k: int| 0 <= k < after.len() && after[k] == x;
                if k < i {
                    assert(before[k] == x);
                } else if k > i {
                    assert(before[k - 1] == x);
                }
            }
            if before.contains(x) {
                let k = choose|k: int| 0 <= k < before.len() && before[k] == x;
                if k < i {
                    assert(after[k] == x);
                } else {
                    assert(after[k + 1] == x);
                }
            }
            if x == cpu {
                assert(after[i as int] == x);
            }
        }
    }
}

/// Two ascending sequences that hold the same numbers are one sequence.
pub proof fn lemma_ascending_unique(a: Seq<u32>, b: Seq<u32>)
    requires
        strictly_ascending(a),
        strictly_ascending(b),
        forall|x: u32|
            #![trigger a.contains(x)]
            #![trigger b.contains(x)]
            a.contains(x) <==> b.contains(x),
    ensures
        a == b,
    decreases a.len(),
{
    if a.len() == 0 {
        if b.len() > 0 {
            assert(b.contains(b[0]));
        }
        assert(a =~= b);
    } else {
        let top = a.last();
        assert(a.contains(top));
        let k = choose|k: int| 0 <= k < b.len() && b[k] == top;
        if k < b.len() - 1 {
            assert(b.contains(b.last()));
            let m = choose|m: int| 0 <= m < a.len() && a[m] == b.last();
            assert(a[m] <= top);
        }
        let a0 = a.drop_last();
        let b0 = b.drop_last();
        assert forall|x: u32| a0.contains(x) <==> b0.contains(x) by {
            if a0.contains(x) {
                let i = choose|i: int| 0 <= i < a0.len() && a0[i] == x;
                assert(a[i] == x);
                assert(b.contains(x));
                let j = choose|j: int| 0 <= j < b.len() && b[j] == x;
                assert(b0[j] == x);
            }
            if b0.contains(x) {
                let j = choose|j: int| 0 <= j < b0.len() && b0[j] == x;
                assert(b[j] == x);
                assert(a.contains(x));
                let i = choose|i: int| 0 <= i < a.len() && a[i] == x;
                assert(a0[i] == x);
            }
        }
        lemma_ascending_unique(a0, b0);
        assert(a =~= a0.push(top));
        assert(b =~= b0.push(top));
    }
}

/// The cores that the list `list` names, ascending, each once.
pub open spec fn members(list: Seq<char>) -> Seq<u32> {
    choose|v: Seq<u32>|
        strictly_ascending(v) && forall|x: u32|
            #![trigger v.contains(x)]
            #![trigger list_covers(list, x)]
            v.contains(x) <==> list_covers(list, x)
}

/// The cores below `bound` that the list `list` names, ascending.
pub open spec fn members_below(list: Seq<char>, bound: nat) -> Seq<u32>
    decreases bound,
{
    if bound == 0 {
        Seq::empty()
    } else {
        let lower = members_below(list, (bound - 1) as nat);
        if bound - 1 <= u32::MAX && list_covers(list, (bound - 1) as u32) {
            lower.push((bound - 1) as u32)
        } else {
            lower
        }
    }
}

/// `members_below` ascends and holds the cores below the bound that the list
/// names, and no others.
proof fn lemma_members_below(list: Seq<char>, bound: nat)
    ensures
        strictly_ascending(members_below(list, bound)),
        forall|x: u32|
            #![trigger members_below(list, bound).contains(x)]
            #![trigger list_covers(list, x)]
            members_below(list, bound).contains(x) <==> (x < bound && list_covers(list, x)),
    decreases bound,
{
    if bound > 0 {
        let lower = members_below(list, (bound - 1) as nat);
        let all = members_below(list, bound);
        lemma_members_below(list, (bound - 1) as nat);
        if bound - 1 <= u32::MAX && list_covers(list, (bound - 1) as u32) {
            let top = (bound - 1) as u32;
            assert(all == lower.push(top));
            assert forall|i: int, j: int| 0 <= i < j < all.len() implies all[i] < all[j] by {
                assert(all[i] == lower[i]);
                assert(lower.contains(lower[i]));
                if j < lower.len() {
                    assert(all[j] == lower[j]);
                } else {
                    assert(all[j] == top);
                }
            }
            assert forall|x: u32| all.contains(x) <==> (x < bound && list_covers(list, x)) by {
                if all.contains(x) {
                    let k = choose|k: int| 0 <= k < all.len() && all[k] == x;
                    if k < lower.len() {
                        assert(lower[k] == x);
                        assert(lower.contains(x));
                    } else {
                        assert(x == top);
                    }
                }
                if x < bound && list_covers(list, x) {
                    if x < bound - 1 {
                        assert(lower.contains(x));
                        let k = choose|k: int| 0 <= k < lower.len() && lower[k] == x;
                        assert(all[k] == x);
                    } else {
                        assert(all[lower.len() as int] == x);
                    }
                }
            }
        } else {
            assert(all == lower);
            assert forall|x: u32| all.contains(x) <==> (x < bound && list_covers(list, x)) by {
                if x < bound && list_covers(list, x) {
                    assert(x < bound - 1);
                }
            }
        }
    }
}

/// Every list has its cores: `members` is an ascending sequence that holds
/// the cores that the list names and no others.
pub proof fn lemma_members(list: Seq<char>)
    ensures
        strictly_ascending(members(list)),
        forall|x: u32|
            #![trigger members(list).contains(x)]
            #![trigger list_covers(list, x)]
            members(list).contains(x) <==> list_covers(list, x),
{
    let witness = members_below(list, 0x1_0000_0000);
    lemma_members_below(list, 0x1_0000_0000);
    assert(strictly_ascending(witness) && forall|x: u32|
        #![trigger witness.contains(x)]
        #![trigger list_covers(list, x)]
        witness.contains(x) <==> list_covers(list, x));
}

/// The cores that the list `list` names, ascending, each once.
pub fn list_members(list: &[char]) -> (v: Vec<u32>)
    ensures
        v@ == members(list@),
        strictly_ascending(v@),
        forall|x: u32|
            #![trigger v@.contains(x)]
            #![trigger list_covers(list@, x)]
            v@.contains(x) <==> list_covers(list@, x),
{
    let mut v: Vec<u32> = Vec::new();
    let mut rest: &[char] = list;
    loop
        invariant
            strictly_ascending(v@),
            forall|x: u32| list_covers(list@, x) <==> (v@.contains(x) || list_covers(rest@, x)),
        decreases rest@.len(),
    {
        let (token, after) = split_first(rest, ',');
        let ghost before = v@;
        match parse_range(token) {
            Some((first, last)) => {
                if first <= last {
                    let mut cpu: u32 = first;
                    while cpu < last
                        invariant
                            first <= cpu <= last,
                            strictly_ascending(v@),
                            forall|x: u32|
                                v@.contains(x) <==> (before.contains(x) || first <= x < cpu),
                        decreases last - cpu,
                    {
                        insert_ascending(&mut v, cpu);
                        cpu += 1;
                    }
                    insert_ascending(&mut v, last);
                }
            },
            None => {},
        }
        assert forall|x: u32| v@.contains(x) <==> (before.contains(x) || token_covers(
            token@,
            x,
        )) by {}
        match after {
            None => {
                proof {
                    assert forall|x: u32|
                        #![trigger v@.contains(x)]
                        #![trigger list_covers(list@, x)]
                        v@.contains(x) <==> list_covers(list@, x) by {
                        lemma_any_covers_single(token@, x);
                    }
                    lemma_ascending_unique(v@, members(list@));
                }
                return v;
            },
            Some(next) => {
                proof {
                    assert forall|x: u32|
                        list_covers(list@, x) <==> (v@.contains(x) || list_covers(next@, x)) by {
                        lemma_any_covers_step(token@, split(next@, ','), x);
                    }
                }
                rest = next;
            },
        }
    }
}


} // verus!
