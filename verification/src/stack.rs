//! One column of the board, packed into a word: six slots of three bits,
//! slot 0 at the bottom.

use crate::symbols::Box;
use vstd::prelude::*;

verus! {

/// The code held in slot `i` of a packed stack.
pub open spec fn slot(w: u32, i: nat) -> u32 {
    (w >> ((3 * i) as u32)) & 7
}

/// The six slots of a packed stack, bottom first.
pub open spec fn stack_boxes(w: u32) -> Seq<Box> {
    Seq::new(6, |i: int| Box::of_code(slot(w, i as nat)))
}

/// The highest slot below `n` that holds a code other than zero, found by
/// looking at the slots from slot `n - 1` downwards.
pub open spec fn scan_top(w: u32, n: nat) -> Option<nat>
    decreases n,
{
    if n == 0 {
        None
    } else if slot(w, (n - 1) as nat) != 0 {
        Some((n - 1) as nat)
    } else {
        scan_top(w, (n - 1) as nat)
    }
}

/// The highest occupied slot of a packed stack.
pub open spec fn top_slot(w: u32) -> Option<nat> {
    scan_top(w, 6)
}

/// The highest slot below `n` that holds a box.
pub open spec fn scan_boxes(s: Seq<Box>, n: nat) -> Option<nat>
    recommends
        n <= s.len(),
    decreases n,
{
    if n == 0 {
        None
    } else if s[n - 1] != Box::Empty {
        Some((n - 1) as nat)
    } else {
        scan_boxes(s, (n - 1) as nat)
    }
}

/// The highest slot of a stack that holds a box, if any does.
pub open spec fn top_index(s: Seq<Box>) -> Option<nat> {
    scan_boxes(s, s.len())
}

/// A stack has six slots, and no box floats above an empty slot.
pub open spec fn settled(s: Seq<Box>) -> bool {
    &&& s.len() == 6
    &&& forall|i: int, j: int| 0 <= i < j < 6 && s[i] == Box::Empty ==> s[j] == Box::Empty
}

/// The stack without its top box, and that box. An empty stack stays as it
/// is and gives no box.
pub open spec fn take_top(s: Seq<Box>) -> (Seq<Box>, Box) {
    match top_index(s) {
        None => (s, Box::Empty),
        Some(t) => (s.update(t as int, Box::Empty), s[t as int]),
    }
}

/// The stack with `b` on top of its boxes, where there is room for it.
pub open spec fn put_top(s: Seq<Box>, b: Box) -> Option<Seq<Box>> {
    let h = match top_index(s) {
        None => 0,
        Some(t) => t + 1,
    };
    if h >= s.len() {
        None
    } else {
        Some(s.update(h as int, b))
    }
}

/// A word is a packed stack: nothing beyond its six slots, each slot a box
/// code or zero, and no box above an empty slot.
pub open spec fn stack_ok(w: u32) -> bool {
    &&& w < 0x40000
    &&& forall|i: nat| i < 6 ==> #[trigger] slot(w, i) <= 4
    &&& settled(stack_boxes(w))
}

/// Writing one slot leaves the others as they were and keeps the word within
/// its six slots.
proof fn lemma_write_slot(w: u32, c: u32, s: u32, t: u32)
    by (bit_vector)
    requires
        s <= 15,
        t <= 15,
        c <= 7,
        s == t || s + 3 <= t || t + 3 <= s,
    ensures
        (((w & !(7u32 << s)) | (c << s)) >> t) & 7 == (if s == t {
            c
        } else {
            (w >> t) & 7
        }),
        w < 0x40000 ==> ((w & !(7u32 << s)) | (c << s)) < 0x40000,
{
}

/// A word within six slots is fixed by what its slots hold.
proof fn lemma_slots_fix_word(a: u32, b: u32)
    requires
        a < 0x40000,
        b < 0x40000,
        forall|i: nat| i < 6 ==> slot(a, i) == slot(b, i),
    ensures
        a == b,
{
    assert(slot(a, 0) == slot(b, 0));
    assert(slot(a, 1) == slot(b, 1));
    assert(slot(a, 2) == slot(b, 2));
    assert(slot(a, 3) == slot(b, 3));
    assert(slot(a, 4) == slot(b, 4));
    assert(slot(a, 5) == slot(b, 5));
    assert(a == b) by (bit_vector)
        requires
            a < 0x40000,
            b < 0x40000,
            (a >> 0u32) & 7 == (b >> 0u32) & 7,
            (a >> 3u32) & 7 == (b >> 3u32) & 7,
            (a >> 6u32) & 7 == (b >> 6u32) & 7,
            (a >> 9u32) & 7 == (b >> 9u32) & 7,
            (a >> 12u32) & 7 == (b >> 12u32) & 7,
            (a >> 15u32) & 7 == (b >> 15u32) & 7,
    ;
}

/// Two packed stacks that show the same boxes are the same word.
pub proof fn lemma_same_boxes_same_word(a: u32, b: u32)
    requires
        stack_ok(a),
        stack_ok(b),
        stack_boxes(a) == stack_boxes(b),
    ensures
        a == b,
{
    assert forall|i: nat| i < 6 implies slot(a, i) == slot(b, i) by {
        assert(stack_boxes(a)[i as int] == Box::of_code(slot(a, i)));
        assert(stack_boxes(b)[i as int] == Box::of_code(slot(b, i)));
        assert(slot(a, i) <= 4);
        assert(slot(b, i) <= 4);
    }
    lemma_slots_fix_word(a, b);
}

/// On a packed stack, the highest slot with a code is the highest slot with
/// a box.
pub proof fn lemma_top_slot_is_top_index(w: u32)
    requires
        stack_ok(w),
    ensures
        top_slot(w) == top_index(stack_boxes(w)),
{
    reveal_with_fuel(scan_top, 7);
    reveal_with_fuel(scan_boxes, 7);
    let s = stack_boxes(w);
    assert(slot(w, 0) <= 4 && slot(w, 1) <= 4 && slot(w, 2) <= 4 && slot(w, 3) <= 4 && slot(w, 4)
        <= 4 && slot(w, 5) <= 4);
    assert(s[0] == Box::of_code(slot(w, 0)));
    assert(s[1] == Box::of_code(slot(w, 1)));
    assert(s[2] == Box::of_code(slot(w, 2)));
    assert(s[3] == Box::of_code(slot(w, 3)));
    assert(s[4] == Box::of_code(slot(w, 4)));
    assert(s[5] == Box::of_code(slot(w, 5)));
}

/// The highest set bit of a word tells its highest occupied slot: bit `p`
/// is set and no bit from `q = p + 1` on.
proof fn lemma_high_bit(w: u32, m: u32, p: u32, q: u32)
    by (bit_vector)
    requires
        m == w & 0x3ffff,
        m != 0 ==> p < 18 && q == p + 1 && (m >> p) & 1 != 0 && m >> q == 0,
    ensures
        m == 0 ==> (w >> 0u32) & 7 == 0 && (w >> 3u32) & 7 == 0 && (w >> 6u32) & 7 == 0 && (w
            >> 9u32) & 7 == 0 && (w >> 12u32) & 7 == 0 && (w >> 15u32) & 7 == 0,
        m != 0 && p < 3 ==> (w >> 0u32) & 7 != 0 && (w >> 3u32) & 7 == 0 && (w >> 6u32) & 7 == 0
            && (w >> 9u32) & 7 == 0 && (w >> 12u32) & 7 == 0 && (w >> 15u32) & 7 == 0,
        m != 0 && 3 <= p && p < 6 ==> (w >> 3u32) & 7 != 0 && (w >> 6u32) & 7 == 0 && (w >> 9u32)
            & 7 == 0 && (w >> 12u32) & 7 == 0 && (w >> 15u32) & 7 == 0,
        m != 0 && 6 <= p && p < 9 ==> (w >> 6u32) & 7 != 0 && (w >> 9u32) & 7 == 0 && (w >> 12u32)
            & 7 == 0 && (w >> 15u32) & 7 == 0,
        m != 0 && 9 <= p && p < 12 ==> (w >> 9u32) & 7 != 0 && (w >> 12u32) & 7 == 0 && (w
            >> 15u32) & 7 == 0,
        m != 0 && 12 <= p && p < 15 ==> (w >> 12u32) & 7 != 0 && (w >> 15u32) & 7 == 0,
        m != 0 && 15 <= p && p < 18 ==> (w >> 15u32) & 7 != 0,
{
}

/// The leading zeros of a word of at most eighteen bits.
proof fn lemma_leading_zeros(m: u32)
    requires
        m < 0x40000,
    ensures
        m.leading_zeros() >= 14,
        m == 0 <==> m.leading_zeros() == 32,
        m != 0 ==> m.leading_zeros() < 32 && (m >> ((31 - m.leading_zeros()) as u32)) & 1 != 0 && m
            >> ((32 - m.leading_zeros()) as u32) == 0,
{
    vstd::std_specs::bits::axiom_u32_leading_zeros(m);
    let z = m.leading_zeros();
    if z < 14 {
        let k: u32 = (31 - z) as u32;
        assert((m >> k) & 1 != 0);
        assert(m < 0x40000 && 18 <= k && k < 32 ==> (m >> k) & 1 == 0) by (bit_vector);
    }
}

/// Finds the highest occupied slot of a packed stack from the count of its
/// leading zero bits. Bits beyond the six slots are not looked at.
pub fn get_top(stack: u32) -> (r: Option<u8>)
    ensures
        match r {
            Some(t) => t < 6 && top_slot(stack) == Some(t as nat),
            None => top_slot(stack) == None::<nat>,
        },
{
    let m: u32 = stack & 0x3ffff;
    assert(m < 0x40000) by (bit_vector)
        requires
            m == stack & 0x3ffff,
    ;
    let z: u32 = m.leading_zeros();
    proof {
        lemma_leading_zeros(m);
        lemma_high_bit(stack, m, (31 - z) as u32, (32 - z) as u32);
        reveal_with_fuel(scan_top, 7);
    }
    let above: u32 = (z - 14) / 3;
    if above > 5 {
        None
    } else {
        let t: u32 = 5 - above;
        Some(t as u8)
    }
}

/// The word 0 is the packed stack without boxes.
pub proof fn lemma_zero_stack()
    ensures
        stack_ok(0),
        forall|i: int| 0 <= i < 6 ==> stack_boxes(0)[i] == Box::Empty,
{
    assert forall|i: nat| i < 6 implies #[trigger] slot(0, i) == 0 by {
        let s: u32 = (3 * i) as u32;
        assert(s <= 15 ==> (0u32 >> s) & 7 == 0) by (bit_vector);
    }
    assert forall|i: int| 0 <= i < 6 implies stack_boxes(0)[i] == Box::Empty by {
        assert(slot(0, i as nat) == 0);
    }
}

/// In a settled stack the boxes lie below the top and nothing lies above it.
pub proof fn lemma_top_index(s: Seq<Box>)
    requires
        settled(s),
    ensures
        match top_index(s) {
            None => forall|i: int| 0 <= i < 6 ==> s[i] == Box::Empty,
            Some(t) => t < 6 && (forall|i: int| 0 <= i <= t ==> s[i] != Box::Empty) && (forall|
                i: int,
            | t < i < 6 ==> s[i] == Box::Empty),
        },
{
    reveal_with_fuel(scan_boxes, 7);
}

/// Taking the top box off a settled stack leaves it settled.
pub proof fn lemma_take_top_settled(s: Seq<Box>)
    requires
        settled(s),
    ensures
        settled(take_top(s).0),
{
    lemma_top_index(s);
}

/// Putting a box on top of a settled stack leaves it settled.
pub proof fn lemma_put_top_settled(s: Seq<Box>, b: Box)
    requires
        settled(s),
        put_top(s, b) is Some,
    ensures
        settled(put_top(s, b).unwrap()),
{
    lemma_top_index(s);
}

/// Takes the top box off a packed stack. An empty stack gives no box.
pub fn pick_up(w: u32) -> (r: (u32, Box))
    requires
        stack_ok(w),
    ensures
        stack_ok(r.0),
        (stack_boxes(r.0), r.1) == take_top(stack_boxes(w)),
{
    let top = get_top(w);
    proof {
        lemma_top_slot_is_top_index(w);
        lemma_top_index(stack_boxes(w));
    }
    match top {
        None => (w, Box::Empty),
        Some(t) => {
            let b = get_slot(w, t);
            let v = set_slot(w, t, Box::Empty);
            proof {
                assert forall|i: nat| i < 6 implies #[trigger] slot(v, i) <= 4 by {
                    assert(slot(w, i) <= 4);
                }
            }
            (v, b)
        },
    }
}

/// Puts a box on top of a packed stack, where there is room for it.
pub fn put_down(w: u32, b: Box) -> (r: Option<u32>)
    requires
        stack_ok(w),
    ensures
        match r {
            Some(v) => stack_ok(v) && put_top(stack_boxes(w), b) == Some(stack_boxes(v)),
            None => put_top(stack_boxes(w), b) == None::<Seq<Box>>,
        },
{
    let top = get_top(w);
    proof {
        lemma_top_slot_is_top_index(w);
        lemma_top_index(stack_boxes(w));
    }
    let h: u8 = match top {
        None => 0,
        Some(t) => t + 1,
    };
    if h >= 6 {
        None
    } else {
        let v = set_slot(w, h, b);
        proof {
            assert forall|i: nat| i < 6 implies #[trigger] slot(v, i) <= 4 by {
                assert(slot(w, i) <= 4);
            }
        }
        Some(v)
    }
}

/// Reads the box in slot `i` of a packed stack.
pub fn get_slot(w: u32, i: u8) -> (r: Box)
    requires
        i < 6,
    ensures
        r == stack_boxes(w)[i as int],
{
    let s: u32 = 3 * (i as u32);
    Box::from_code((w >> s) & 7)
}

/// Writes a box into slot `i` of a packed stack.
pub fn set_slot(w: u32, i: u8, b: Box) -> (r: u32)
    requires
        i < 6,
    ensures
        stack_boxes(r) == stack_boxes(w).update(i as int, b),
        forall|j: nat| j < 6 ==> #[trigger] slot(r, j) == (if j == i { b.code() } else { slot(w, j) }),
        w < 0x40000 ==> r < 0x40000,
{
    let s: u32 = 3 * (i as u32);
    let c: u32 = b.to_code();
    let r: u32 = (w & !(7u32 << s)) | (c << s);
    proof {
        assert forall|j: nat| j < 6 implies #[trigger] slot(r, j) == (if j == i {
            c
        } else {
            slot(w, j)
        }) by {
            lemma_write_slot(w, c, s, (3 * j) as u32);
        }
        lemma_write_slot(w, c, s, s);
        assert(stack_boxes(r) =~= stack_boxes(w).update(i as int, b));
    }
    r
}

} // verus!
