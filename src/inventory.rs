use vstd::multiset::Multiset;
use vstd::prelude::*;

use crate::color::{Color, color_of};
use crate::tower::{Tower, key};

verus! {

broadcast use {vstd::multiset::group_multiset_axioms, vstd::multiset::group_multiset_properties};

/// The (height, color) keys of a row of towers, as a multiset.
pub open spec fn keys_of(s: Seq<Tower>) -> Multiset<(int, int)> {
    s.map_values(|t: Tower| key(t)).to_multiset()
}

/// What one cell adds to the towers placed on a board.
pub open spec fn cell_contribution(t: Tower) -> Multiset<(int, int)> {
    if t.inuse {
        Multiset::singleton(key(t))
    } else {
        Multiset::empty()
    }
}

/// The keys of the towers that stand on a board.
pub open spec fn placed(b: Seq<Tower>) -> Multiset<(int, int)>
    decreases b.len(),
{
    if b.len() == 0 {
        Multiset::empty()
    } else {
        placed(b.drop_last()).add(cell_contribution(b.last()))
    }
}

/// How many cells of a board hold a tower.
pub open spec fn placed_count(b: Seq<Tower>) -> nat
    decreases b.len(),
{
    if b.len() == 0 {
        0
    } else {
        placed_count(b.drop_last()) + if b.last().inuse {
            1nat
        } else {
            0nat
        }
    }
}

/// The 36 towers of a fresh inventory: heights 1 to 6, each in the six colors
/// in order, none in use.
pub open spec fn full_inventory_seq() -> Seq<Tower> {
    Seq::new(36, |i: int| Tower { height: (i / 6 + 1) as i8, color: color_of(i % 6), inuse: false })
}

/// The keys of a fresh inventory.
pub open spec fn full_inventory() -> Multiset<(int, int)> {
    keys_of(full_inventory_seq())
}

/// Every tower of the inventory, placed or free, is accounted for: the placed
/// ones and the free ones together make up `inv`.
pub open spec fn conserved(b: Seq<Tower>, free: Seq<Tower>, inv: Multiset<(int, int)>) -> bool {
    placed(b).add(keys_of(free)) == inv
}

/// The placed towers are as many as the cells that hold one.
pub proof fn lemma_placed_len(b: Seq<Tower>)
    ensures
        placed(b).len() == placed_count(b),
    decreases b.len(),
{
    if b.len() > 0 {
        lemma_placed_len(b.drop_last());
    }
}

/// Replacing one cell changes the placed towers by that cell's contribution.
pub proof fn lemma_placed_update(b: Seq<Tower>, i: int, t: Tower)
    requires
        0 <= i < b.len(),
    ensures
        placed(b.update(i, t)).add(cell_contribution(b[i])) == placed(b).add(cell_contribution(t)),
    decreases b.len(),
{
    let b2 = b.update(i, t);
    assert(placed(b2) == placed(b2.drop_last()).add(cell_contribution(b2.last())));
    assert(placed(b) == placed(b.drop_last()).add(cell_contribution(b.last())));
    if i == b.len() - 1 {
        assert(b2.drop_last() =~= b.drop_last());
        assert(b2.last() == t);
        assert(placed(b2).add(cell_contribution(b[i])) =~= placed(b).add(cell_contribution(t)));
    } else {
        assert(b2.drop_last() =~= b.drop_last().update(i, t));
        assert(b2.last() == b.last());
        assert(b.drop_last()[i] == b[i]);
        let d = b.drop_last();
        lemma_placed_update(d, i, t);
        assert forall|x: (int, int)| #[trigger] placed(b2).add(cell_contribution(b[i])).count(x)
            == placed(b).add(cell_contribution(t)).count(x) by {
            assert(placed(d.update(i, t)).add(cell_contribution(d[i])).count(x)
                == placed(d).add(cell_contribution(t)).count(x));
        }
        assert(placed(b2).add(cell_contribution(b[i])) =~= placed(b).add(cell_contribution(t)));
    }
}

/// A row of towers has as many keys as towers.
pub proof fn lemma_keys_len(s: Seq<Tower>)
    ensures
        keys_of(s).len() == s.len(),
{
    s.map_values(|t: Tower| key(t)).to_multiset_ensures();
}

/// Inventory conservation: while every tower is accounted for, the towers on
/// the board and the free towers together are as many as the inventory holds;
/// for a fresh inventory that is 36.
pub proof fn lemma_inventory_count(b: Seq<Tower>, free: Seq<Tower>, inv: Multiset<(int, int)>)
    requires
        conserved(b, free, inv),
    ensures
        placed_count(b) + free.len() == inv.len(),
        inv == full_inventory() ==> placed_count(b) + free.len() == 36,
{
    lemma_placed_len(b);
    lemma_keys_len(free);
    lemma_keys_len(full_inventory_seq());
}

/// A board on which every cell counts as placed has a tower in every cell.
pub proof fn lemma_all_placed(b: Seq<Tower>)
    requires
        placed_count(b) == b.len(),
    ensures
        forall|i: int| 0 <= i < b.len() ==> (#[trigger] b[i]).inuse,
    decreases b.len(),
{
    if b.len() > 0 {
        lemma_placed_count_le(b.drop_last());
        lemma_all_placed(b.drop_last());
        assert forall|i: int| 0 <= i < b.len() implies (#[trigger] b[i]).inuse by {
            if i < b.len() - 1 {
                assert(b.drop_last()[i] == b[i]);
            }
        }
    }
}

proof fn lemma_placed_count_le(b: Seq<Tower>)
    ensures
        placed_count(b) <= b.len(),
    decreases b.len(),
{
    if b.len() > 0 {
        lemma_placed_count_le(b.drop_last());
    }
}

/// Builds a fresh inventory: every height from 1 to 6 in every color, none in
/// use.
pub fn initialize_freetowers() -> (r: Vec<Tower>)
    ensures
        r@ == full_inventory_seq(),
{
    let mut towers: Vec<Tower> = Vec::new();
    let mut i: i8 = 1;
    while i < 7
        invariant
            1 <= i <= 7,
            towers@.len() == (i - 1) * 6,
            forall|k: int| 0 <= k < towers@.len() ==> towers@[k] == full_inventory_seq()[k],
        decreases 7 - i,
    {
        let mut j: u8 = 0;
        while j < 6
            invariant
                1 <= i < 7,
                j <= 6,
                towers@.len() == (i - 1) * 6 + j,
                forall|k: int| 0 <= k < towers@.len() ==> towers@[k] == full_inventory_seq()[k],
            decreases 6 - j,
        {
            let c = Color::from_int(j);
            let color = match c {
                Some(c) => c,
                None => Color::Red,
            };
            proof {
                let k = (i - 1) * 6 + j;
                assert(k / 6 == i - 1 && k % 6 == j) by (nonlinear_arith)
                    requires k == (i - 1) * 6 + j, 0 <= j < 6;
            }
            towers.push(Tower::new(i, color, false));
            j = j + 1;
        }
        i = i + 1;
    }
    assert(towers@ =~= full_inventory_seq());
    towers
}

/// Index of the first free tower with the height and color of `t`, or -1
/// where there is none.
pub fn find_available_tower(freetowers: &Vec<Tower>, t: Tower) -> (r: i32)
    requires
        freetowers.len() <= i32::MAX,
    ensures
        -1 <= r < freetowers.len(),
        r == -1 <==> forall|j: int| 0 <= j < freetowers.len() ==> key(#[trigger] freetowers@[j]) != key(t),
        r >= 0 ==> key(freetowers@[r as int]) == key(t),
        r >= 0 ==> forall|j: int| 0 <= j < r ==> key(#[trigger] freetowers@[j]) != key(t),
{
    let mut i: usize = 0;
    while i < freetowers.len()
        invariant
            i <= freetowers.len() <= i32::MAX,
            forall|j: int| 0 <= j < i ==> key(#[trigger] freetowers@[j]) != key(t),
        decreases freetowers.len() - i,
    {
        if freetowers[i].height == t.height && freetowers[i].color == t.color {
            return i as i32;
        }
        i = i + 1;
    }
    -1
}

/// A key is among the free towers exactly when some free tower carries it.
pub proof fn lemma_keys_contains(s: Seq<Tower>, k: (int, int))
    ensures
        keys_of(s).count(k) > 0 <==> exists|j: int| 0 <= j < s.len() && key(#[trigger] s[j]) == k,
{
    let m = s.map_values(|t: Tower| key(t));
    m.to_multiset_ensures();
    if keys_of(s).count(k) > 0 {
        let j = choose|j: int| 0 <= j < m.len() && m[j] == k;
        assert(key(s[j]) == k);
    }
    if exists|j: int| 0 <= j < s.len() && key(#[trigger] s[j]) == k {
        let j = choose|j: int| 0 <= j < s.len() && key(#[trigger] s[j]) == k;
        assert(m[j] == k);
    }
}

/// Pushing a tower adds its key; removing the tower at `i` takes its key out.
pub proof fn lemma_keys_push_remove(s: Seq<Tower>, t: Tower)
    ensures
        keys_of(s.push(t)) == keys_of(s).insert(key(t)),
        forall|i: int| 0 <= i < s.len() ==> #[trigger] keys_of(s.remove(i)) == keys_of(s).remove(key(s[i])),
{
    let f = |t: Tower| key(t);
    let m = s.map_values(f);
    m.to_multiset_ensures();
    assert(s.push(t).map_values(f) =~= m.push(key(t)));
    assert forall|i: int| 0 <= i < s.len() implies #[trigger] keys_of(s.remove(i)) == keys_of(s).remove(key(s[i])) by {
        assert(s.remove(i).map_values(f) =~= m.remove(i));
    }
}

} // verus!
