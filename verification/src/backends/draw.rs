//! The order of draws: by layer, and within a layer as they came.

use vstd::prelude::*;

verus! {

/// Whether one draw comes before another.
pub open spec fn comes_before(layers: Seq<i16>, a: int, b: int) -> bool {
    layers[a] < layers[b] || (layers[a] == layers[b] && a < b)
}

/// Whether an order holds every draw once, by layer, and within a layer as they
/// came.
pub open spec fn is_order(layers: Seq<i16>, order: Seq<usize>) -> bool {
    &&& order.len() == layers.len()
    &&& forall|i: int| 0 <= i < order.len() ==> #[trigger] order[i] < layers.len()
    &&& forall|i: int, j: int|
        0 <= i < j < order.len() ==> comes_before(
            layers,
            #[trigger] order[i] as int,
            #[trigger] order[j] as int,
        )
}

/// Whether the draws so far are all that come before a layer.
spec fn holds_below(layers: Seq<i16>, order: Seq<usize>, bound: int) -> bool {
    &&& forall|i: int|
        0 <= i < order.len() ==> #[trigger] order[i] < layers.len() && layers[order[i] as int]
            < bound
    &&& forall|k: int|
        0 <= k < layers.len() && (#[trigger] layers[k]) < bound ==> order.contains(k as usize)
    &&& forall|i: int, j: int|
        0 <= i < j < order.len() ==> comes_before(
            layers,
            #[trigger] order[i] as int,
            #[trigger] order[j] as int,
        )
}

/// The lowest layer from a bound on.
fn next_layer(layers: &Vec<i16>, bound: i32) -> (r: Option<i16>)
    ensures
        match r {
            Some(l) => l >= bound && layers@.contains(l) && forall|k: int|
                0 <= k < layers@.len() ==> #[trigger] layers@[k] < bound || layers@[k] >= l,
            None => forall|k: int| 0 <= k < layers@.len() ==> #[trigger] layers@[k] < bound,
        },
{
    let mut best: Option<i16> = None;
    let mut i: usize = 0;
    while i < layers.len()
        invariant
            i <= layers@.len(),
            match best {
                Some(l) => l >= bound && layers@.contains(l) && forall|k: int|
                    0 <= k < i ==> #[trigger] layers@[k] < bound || layers@[k] >= l,
                None => forall|k: int| 0 <= k < i ==> #[trigger] layers@[k] < bound,
            },
        decreases layers.len() - i,
    {
        let l: i16 = layers[i];
        assert(layers@.contains(l));
        if l as i32 >= bound {
            let better = match best {
                Some(b) => l < b,
                None => true,
            };
            if better {
                best = Some(l);
            }
        }
        i += 1;
    }
    best
}

proof fn lemma_count(layers: Seq<i16>, order: Seq<usize>)
    requires
        layers.len() <= usize::MAX,
        forall|i: int| 0 <= i < order.len() ==> #[trigger] order[i] < layers.len(),
        forall|k: int| 0 <= k < layers.len() ==> order.contains(#[trigger] (k as usize)),
        forall|i: int, j: int|
            0 <= i < j < order.len() ==> comes_before(
                layers,
                #[trigger] order[i] as int,
                #[trigger] order[j] as int,
            ),
    ensures
        order.len() == layers.len(),
{
    let ints = Seq::new(order.len(), |i: int| order[i] as int);
    assert(ints.no_duplicates()) by {
        assert forall|i: int, j: int| 0 <= i < ints.len() && 0 <= j < ints.len() && i
            != j implies ints[i] != ints[j] by {
            if i < j {
                assert(comes_before(layers, order[i] as int, order[j] as int));
            } else {
                assert(comes_before(layers, order[j] as int, order[i] as int));
            }
        }
    }
    ints.unique_seq_to_set();
    let all = vstd::set_lib::set_int_range(0, layers.len() as int);
    vstd::set_lib::lemma_int_range(0, layers.len() as int);
    assert(ints.to_set() =~= all) by {
        assert forall|x: int| ints.to_set().contains(x) implies all.contains(x) by {
            let i = choose|i: int| 0 <= i < ints.len() && ints[i] == x;
            assert(order[i] < layers.len());
        }
        assert forall|x: int| all.contains(x) implies ints.to_set().contains(x) by {
            assert(order.contains(x as usize));
            let i = choose|i: int| 0 <= i < order.len() && order[i] == x as usize;
            assert(ints[i] == x);
        }
    }
}

/// The order in which draws of these layers are made.
pub fn draw_order(layers: &Vec<i16>) -> (order: Vec<usize>)
    ensures
        is_order(layers@, order@),
{
    let n: usize = layers.len();
    let mut order: Vec<usize> = Vec::new();
    let mut bound: i32 = -32768;
    loop
        invariant
            n == layers@.len(),
            -32768 <= bound <= 32768,
            holds_below(layers@, order@, bound as int),
        ensures
            forall|k: int| 0 <= k < layers@.len() ==> #[trigger] layers@[k] < bound,
            holds_below(layers@, order@, bound as int),
        decreases 32768 - bound,
    {
        let l: i16 = match next_layer(layers, bound) {
            Some(l) => l,
            None => {
                break;
            },
        };
        let ghost before = order@;
        let mut i: usize = 0;
        while i < n
            invariant
                i <= n,
                n == layers@.len(),
                l >= bound,
                holds_below(layers@, before, bound as int),
                before.len() <= order@.len(),
                forall|k: int| 0 <= k < before.len() ==> #[trigger] order@[k] == before[k],
                forall|k: int|
                    before.len() <= k < order@.len() ==> #[trigger] order@[k] < i
                        && layers@[order@[k] as int] == l,
                forall|k: int|
                    0 <= k < i && #[trigger] layers@[k] == l ==> order@.contains(k as usize),
                forall|a: int, b: int|
                    0 <= a < b < order@.len() ==> comes_before(
                        layers@,
                        #[trigger] order@[a] as int,
                        #[trigger] order@[b] as int,
                    ),
            decreases n - i,
        {
            if layers[i] == l {
                let ghost was = order@;
                order.push(i);
                assert(order@[was.len() as int] == i);
                assert forall|k: int|
                    0 <= k < i + 1 && #[trigger] layers@[k] == l implies order@.contains(
                    k as usize,
                ) by {
                    if k < i {
                        assert(was.contains(k as usize));
                        let q = choose|q: int| 0 <= q < was.len() && was[q] == k as usize;
                        assert(order@[q] == k as usize);
                    }
                }
                assert forall|a: int, b: int| 0 <= a < b < order@.len() implies comes_before(
                    layers@,
                    #[trigger] order@[a] as int,
                    #[trigger] order@[b] as int,
                ) by {
                    if b < was.len() {
                        assert(order@[a] == was[a] && order@[b] == was[b]);
                    } else {
                        assert(order@[a] == was[a]);
                        if a < before.len() {
                            assert(before[a] == order@[a]);
                            assert(layers@[before[a] as int] < bound);
                        }
                    }
                }
            }
            i += 1;
        }
        bound = l as i32 + 1;
        assert(holds_below(layers@, order@, bound as int)) by {
            assert forall|i: int| 0 <= i < order@.len() implies #[trigger] order@[i]
                < layers@.len() && layers@[order@[i] as int] < bound by {
                if i < before.len() {
                    assert(order@[i] == before[i]);
                    assert(layers@[before[i] as int] < bound);
                }
            }
            assert forall|k: int|
                0 <= k < layers@.len() && (#[trigger] layers@[k]) < bound implies order@.contains(
                k as usize,
            ) by {
                if layers@[k] != l {
                    assert(before.contains(k as usize));
                    let q = choose|q: int| 0 <= q < before.len() && before[q] == k as usize;
                    assert(order@[q] == k as usize);
                }
            }
        }
    }
    proof {
        assert forall|k: int| 0 <= k < layers@.len() implies order@.contains(
            #[trigger] (k as usize),
        ) by {
            assert(layers@[k] < bound);
        }
        lemma_count(layers@, order@);
    }
    order
}

} // verus!
