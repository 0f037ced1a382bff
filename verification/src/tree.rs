use vstd::prelude::*;

use crate::Error;
use crate::Pref;
use crate::graph::Dag;
use crate::graph::Edge;
use crate::rng::rng_index;
use crate::rng::rng_next_u32;
use crate::rng::rng_stream;
use crate::rng::stream_u32;
use rand_chacha::ChaCha20Rng;

verus! {

/// The traversal-bias decision for one step: the high 24 bits of the drawn
/// word, read as a fixed-point fraction of `FRONT_PROP_ONE`, fall below
/// `front_prop`. With `front_prop == 0` this never holds; with
/// `front_prop == FRONT_PROP_ONE` it always does.
pub open spec fn takes_front(word: u32, front_prop: u32) -> bool {
    (word >> 8) < front_prop
}

/// The fan-out drawn for one step, before clamping: a value in the inclusive
/// range `[min_forks, max_forks]`.
pub open spec fn fork_draw(word: u32, min_forks: u32, max_forks: u32) -> int
    recommends
        min_forks <= max_forks,
{
    min_forks + (word as int) % (max_forks - min_forks + 1)
}

/// One tree build, as a function of the random stream. Starting from the open
/// queue `queue` and the next unassigned node index `next`, each step draws a
/// word to pop one open node (front or back of the queue, by the bias), draws
/// a second word for the fan-out `k` (clamped to the remaining capacity
/// `size - next`), gives the popped node the children `next, ..., next+k-1`,
/// queues those children at the back, and stops as soon as every index below
/// `size` is assigned or no node is open. Returns the edges added and the
/// stream position where the build leaves off.
pub open spec fn tree_build(
    stream: int,
    index: nat,
    queue: Seq<u32>,
    next: u32,
    size: u32,
    front_prop: u32,
    min_forks: u32,
    max_forks: u32,
) -> (Seq<Edge>, nat)
    decreases size - next, queue.len(),
{
    if queue.len() == 0 || min_forks > max_forks || next > size {
        (Seq::empty(), index)
    } else {
        let w1 = stream_u32(stream, index);
        let current = if takes_front(w1, front_prop) {
            queue.first()
        } else {
            queue.last()
        };
        let rest = if takes_front(w1, front_prop) {
            queue.drop_first()
        } else {
            queue.drop_last()
        };
        let w2 = stream_u32(stream, index + 1);
        let draw = fork_draw(w2, min_forks, max_forks);
        let k = if draw <= size - next {
            draw
        } else {
            size - next
        };
        let added = Seq::new(k as nat, |i: int| Edge { source: current, target: (next + i) as u32 });
        let kids = Seq::new(k as nat, |i: int| (next + i) as u32);
        if next + k >= size {
            (added, index + 2)
        } else {
            let tail = tree_build(
                stream,
                index + 2,
                rest + kids,
                (next + k) as u32,
                size,
                front_prop,
                min_forks,
                max_forks,
            );
            (added + tail.0, tail.1)
        }
    }
}

/// Every edge of a tree build ascends and stays in range, and its targets are
/// the consecutive indices `next, next + 1, ...`.
pub proof fn lemma_tree_build_shape(
    stream: int,
    index: nat,
    queue: Seq<u32>,
    next: u32,
    size: u32,
    front_prop: u32,
    min_forks: u32,
    max_forks: u32,
)
    requires
        forall|i: int| 0 <= i < queue.len() ==> queue[i] < next,
    ensures
        ({
            let r = tree_build(stream, index, queue, next, size, front_prop, min_forks, max_forks);
            &&& forall|i: int| 0 <= i < r.0.len() ==> (#[trigger] r.0[i]).target == next + i
            &&& forall|i: int|
                0 <= i < r.0.len() ==> (#[trigger] r.0[i]).source < r.0[i].target && r.0[i].target
                    < size
        }),
    decreases size - next, queue.len(),
{
    let r = tree_build(stream, index, queue, next, size, front_prop, min_forks, max_forks);
    if queue.len() == 0 || min_forks > max_forks || next > size {
    } else {
        let w1 = stream_u32(stream, index);
        let current = if takes_front(w1, front_prop) {
            queue.first()
        } else {
            queue.last()
        };
        let rest = if takes_front(w1, front_prop) {
            queue.drop_first()
        } else {
            queue.drop_last()
        };
        let w2 = stream_u32(stream, index + 1);
        let draw = fork_draw(w2, min_forks, max_forks);
        assert(0 <= (w2 as int) % (max_forks - min_forks + 1) < max_forks - min_forks + 1);
        let k = if draw <= size - next {
            draw
        } else {
            size - next
        };
        let kids = Seq::new(k as nat, |i: int| (next + i) as u32);
        assert(current < next) by {
            if takes_front(w1, front_prop) {
                assert(queue[0] == current);
            } else {
                assert(queue[queue.len() - 1] == current);
            }
        }
        if next + k >= size {
            assert(k == size - next);
        } else {
            assert(forall|i: int| 0 <= i < rest.len() ==> rest[i] < next) by {
                if takes_front(w1, front_prop) {
                    assert(forall|i: int| 0 <= i < rest.len() ==> rest[i] == queue[i + 1]);
                } else {
                    assert(forall|i: int| 0 <= i < rest.len() ==> rest[i] == queue[i]);
                }
            }
            assert(forall|i: int|
                0 <= i < (rest + kids).len() ==> (rest + kids)[i] < (next + k) as u32);
            lemma_tree_build_shape(
                stream,
                index + 2,
                rest + kids,
                (next + k) as u32,
                size,
                front_prop,
                min_forks,
                max_forks,
            );
            let tail = tree_build(
                stream,
                index + 2,
                rest + kids,
                (next + k) as u32,
                size,
                front_prop,
                min_forks,
                max_forks,
            );
            assert(forall|i: int| k <= i < r.0.len() ==> r.0[i] == tail.0[i - k]);
        }
    }
}

/// A tree build over the single-node root queue yields a well-formed edge
/// list: every edge valid for `size`, no edge twice, at most `size` edges.
pub proof fn lemma_tree_build_wf(
    stream: int,
    index: nat,
    size: u32,
    front_prop: u32,
    min_forks: u32,
    max_forks: u32,
)
    ensures
        ({
            let r = tree_build(stream, index, seq![0u32], 1u32, size, front_prop, min_forks,
                max_forks);
            &&& crate::graph::edges_valid(r.0, size)
            &&& crate::graph::no_dup_edges(r.0)
        }),
{
    let q = seq![0u32];
    assert(forall|i: int| 0 <= i < q.len() ==> q[i] < 1u32);
    lemma_tree_build_shape(stream, index, q, 1u32, size, front_prop, min_forks, max_forks);
    let r = tree_build(stream, index, q, 1u32, size, front_prop, min_forks, max_forks);
    assert forall|i: int, j: int| 0 <= i < j < r.0.len() implies r.0[i] != r.0[j] by {
        assert(r.0[i].target == 1 + i);
        assert(r.0[j].target == 1 + j);
    }
}

/// When every step forks at least once, a tree build assigns every remaining
/// index and produces exactly one edge per assigned index.
pub proof fn lemma_tree_build_count(
    stream: int,
    index: nat,
    queue: Seq<u32>,
    next: u32,
    size: u32,
    front_prop: u32,
    min_forks: u32,
    max_forks: u32,
)
    requires
        1 <= min_forks <= max_forks,
        queue.len() >= 1,
        1 <= next <= size,
    ensures
        tree_build(stream, index, queue, next, size, front_prop, min_forks, max_forks).0.len()
            == size - next,
    decreases size - next, queue.len(),
{
    let w1 = stream_u32(stream, index);
    let rest = if takes_front(w1, front_prop) {
        queue.drop_first()
    } else {
        queue.drop_last()
    };
    let w2 = stream_u32(stream, index + 1);
    let draw = fork_draw(w2, min_forks, max_forks);
    assert(0 <= (w2 as int) % (max_forks - min_forks + 1) < max_forks - min_forks + 1);
    let k = if draw <= size - next {
        draw
    } else {
        size - next
    };
    let kids = Seq::new(k as nat, |i: int| (next + i) as u32);
    if next + k >= size {
        assert(k == size - next);
    } else {
        assert(k >= 1);
        assert((rest + kids).len() >= 1);
        lemma_tree_build_count(
            stream,
            index + 2,
            rest + kids,
            (next + k) as u32,
            size,
            front_prop,
            min_forks,
            max_forks,
        );
    }
}

/// With exactly one fork per step, a build whose queue holds the single open
/// node `c` degenerates to a path: each step pops the only open node, gives
/// it one child, and leaves that child as the only open node — whatever the
/// bias draws, since front and back of a one-node queue coincide.
pub proof fn lemma_tree_build_chain(
    stream: int,
    index: nat,
    c: u32,
    next: u32,
    size: u32,
    front_prop: u32,
)
    requires
        c < next,
        1 <= next <= size,
    ensures
        ({
            let r = tree_build(stream, index, seq![c], next, size, front_prop, 1u32, 1u32);
            &&& r.0.len() == size - next
            &&& forall|i: int|
                0 <= i < r.0.len() ==> #[trigger] r.0[i] == (Edge {
                    source: if i == 0 {
                        c
                    } else {
                        (next + i - 1) as u32
                    },
                    target: (next + i) as u32,
                })
        }),
    decreases size - next,
{
    let q = seq![c];
    let w1 = stream_u32(stream, index);
    let w2 = stream_u32(stream, index + 1);
    assert(q.first() == c && q.last() == c);
    assert((w2 as int) % 1int == 0);
    assert(fork_draw(w2, 1u32, 1u32) == 1);
    if next == size {
        assert(tree_build(stream, index, q, next, size, front_prop, 1u32, 1u32).0 =~= Seq::<
            Edge,
        >::empty());
    } else {
        let rest = if takes_front(w1, front_prop) {
            q.drop_first()
        } else {
            q.drop_last()
        };
        let kids = Seq::new(1nat, |i: int| (next + i) as u32);
        let added = Seq::new(1nat, |i: int| Edge { source: c, target: (next + i) as u32 });
        assert(rest + kids =~= seq![next]);
        if next + 1 >= size {
            assert(tree_build(stream, index, q, next, size, front_prop, 1u32, 1u32).0 == added);
        } else {
            lemma_tree_build_chain(stream, index + 2, next, (next + 1) as u32, size, front_prop);
            let tail = tree_build(stream, index + 2, seq![next], (next + 1) as u32, size,
                front_prop, 1u32, 1u32);
            assert(tree_build(stream, index, q, next, size, front_prop, 1u32, 1u32).0 == added
                + tail.0);
        }
    }
}

/// A tree build that always expands the oldest open node: the front of the
/// queue is popped at every step (pure breadth-first order). The bias word is
/// still drawn, so the stream advances exactly as in `tree_build`.
pub open spec fn tree_build_front_only(
    stream: int,
    index: nat,
    queue: Seq<u32>,
    next: u32,
    size: u32,
    min_forks: u32,
    max_forks: u32,
) -> (Seq<Edge>, nat)
    decreases size - next, queue.len(),
{
    if queue.len() == 0 || min_forks > max_forks || next > size {
        (Seq::empty(), index)
    } else {
        let current = queue.first();
        let rest = queue.drop_first();
        let w2 = stream_u32(stream, index + 1);
        let draw = fork_draw(w2, min_forks, max_forks);
        let k = if draw <= size - next {
            draw
        } else {
            size - next
        };
        let added = Seq::new(k as nat, |i: int| Edge { source: current, target: (next + i) as u32 });
        let kids = Seq::new(k as nat, |i: int| (next + i) as u32);
        if next + k >= size {
            (added, index + 2)
        } else {
            let tail = tree_build_front_only(
                stream,
                index + 2,
                rest + kids,
                (next + k) as u32,
                size,
                min_forks,
                max_forks,
            );
            (added + tail.0, tail.1)
        }
    }
}

/// A tree build that always expands the newest open node: the back of the
/// queue is popped at every step (pure depth-first order). The bias word is
/// still drawn, so the stream advances exactly as in `tree_build`.
pub open spec fn tree_build_back_only(
    stream: int,
    index: nat,
    queue: Seq<u32>,
    next: u32,
    size: u32,
    min_forks: u32,
    max_forks: u32,
) -> (Seq<Edge>, nat)
    decreases size - next, queue.len(),
{
    if queue.len() == 0 || min_forks > max_forks || next > size {
        (Seq::empty(), index)
    } else {
        let current = queue.last();
        let rest = queue.drop_last();
        let w2 = stream_u32(stream, index + 1);
        let draw = fork_draw(w2, min_forks, max_forks);
        let k = if draw <= size - next {
            draw
        } else {
            size - next
        };
        let added = Seq::new(k as nat, |i: int| Edge { source: current, target: (next + i) as u32 });
        let kids = Seq::new(k as nat, |i: int| (next + i) as u32);
        if next + k >= size {
            (added, index + 2)
        } else {
            let tail = tree_build_back_only(
                stream,
                index + 2,
                rest + kids,
                (next + k) as u32,
                size,
                min_forks,
                max_forks,
            );
            (added + tail.0, tail.1)
        }
    }
}

/// With the bias probability at its maximum, the bias draw chooses the front
/// at every step: the build never pops from the back, and generation is pure
/// breadth-first.
pub proof fn lemma_front_prop_one_breadth_first(
    stream: int,
    index: nat,
    queue: Seq<u32>,
    next: u32,
    size: u32,
    min_forks: u32,
    max_forks: u32,
)
    ensures
        tree_build(stream, index, queue, next, size, crate::FRONT_PROP_ONE, min_forks, max_forks)
            == tree_build_front_only(stream, index, queue, next, size, min_forks, max_forks),
    decreases size - next, queue.len(),
{
    if queue.len() == 0 || min_forks > max_forks || next > size {
    } else {
        let w1 = stream_u32(stream, index);
        assert(w1 >> 8 < 0x1000000u32) by (bit_vector);
        assert(takes_front(w1, crate::FRONT_PROP_ONE));
        let rest = queue.drop_first();
        let w2 = stream_u32(stream, index + 1);
        let draw = fork_draw(w2, min_forks, max_forks);
        assert(0 <= (w2 as int) % (max_forks - min_forks + 1) < max_forks - min_forks + 1);
        let k = if draw <= size - next {
            draw
        } else {
            size - next
        };
        let kids = Seq::new(k as nat, |i: int| (next + i) as u32);
        if next + k >= size {
        } else {
            lemma_front_prop_one_breadth_first(
                stream,
                index + 2,
                rest + kids,
                (next + k) as u32,
                size,
                min_forks,
                max_forks,
            );
        }
    }
}

/// With the bias probability at zero, the bias draw never chooses the front:
/// the build always pops from the back, and generation is pure depth-first.
pub proof fn lemma_front_prop_zero_depth_first(
    stream: int,
    index: nat,
    queue: Seq<u32>,
    next: u32,
    size: u32,
    min_forks: u32,
    max_forks: u32,
)
    ensures
        tree_build(stream, index, queue, next, size, 0u32, min_forks, max_forks)
            == tree_build_back_only(stream, index, queue, next, size, min_forks, max_forks),
    decreases size - next, queue.len(),
{
    if queue.len() == 0 || min_forks > max_forks || next > size {
    } else {
        let w1 = stream_u32(stream, index);
        assert(!takes_front(w1, 0u32));
        let rest = queue.drop_last();
        let w2 = stream_u32(stream, index + 1);
        let draw = fork_draw(w2, min_forks, max_forks);
        assert(0 <= (w2 as int) % (max_forks - min_forks + 1) < max_forks - min_forks + 1);
        let k = if draw <= size - next {
            draw
        } else {
            size - next
        };
        let kids = Seq::new(k as nat, |i: int| (next + i) as u32);
        if next + k >= size {
        } else {
            lemma_front_prop_zero_depth_first(
                stream,
                index + 2,
                rest + kids,
                (next + k) as u32,
                size,
                min_forks,
                max_forks,
            );
        }
    }
}

/// Builds one random spanning tree of exactly `pref.size` nodes, drawing from
/// `rng`: the edges are precisely those of `tree_build` on the generator's
/// stream, starting from the root queue, and the generator is left exactly
/// where the build leaves off. The construction cannot violate the tree's
/// structure, so an internal error is never returned.
pub fn generate_tree(pref: &Pref, rng: &mut ChaCha20Rng) -> (r: Result<Dag, Error>)
    requires
        pref.forks_ok(),
        pref.size_ok(),
    ensures
        r matches Ok(d) && ({
            let t = tree_build(
                rng_stream(*old(rng)),
                rng_index(*old(rng)),
                seq![0u32],
                1u32,
                pref.size,
                pref.front_prop,
                pref.min_forks,
                pref.max_forks,
            );
            &&& d.size == pref.size
            &&& d.edges@ == t.0
            &&& rng_stream(*final(rng)) == rng_stream(*old(rng))
            &&& rng_index(*final(rng)) == t.1
        }),
{
    let ghost stream0 = rng_stream(*rng);
    let ghost goal = tree_build(
        rng_stream(*rng),
        rng_index(*rng),
        seq![0u32],
        1u32,
        pref.size,
        pref.front_prop,
        pref.min_forks,
        pref.max_forks,
    );

    let mut queue: Vec<u32> = Vec::new();
    queue.push(0);
    let mut head: usize = 0;
    let mut next: u32 = 1;
    let mut edges: Vec<Edge> = Vec::new();

    proof {
        assert(queue@.subrange(0, queue@.len() as int) =~= seq![0u32]);
        assert(edges@ + goal.0 =~= goal.0);
    }

    loop
        invariant_except_break
            pref.min_forks <= pref.max_forks,
            1 <= next <= pref.size,
            head <= queue@.len(),
            rng_stream(*rng) == stream0,
            forall|i: int| head <= i < queue@.len() ==> queue@[i] < next,
            ({
                let remt = tree_build(
                    stream0,
                    rng_index(*rng),
                    queue@.subrange(head as int, queue@.len() as int),
                    next,
                    pref.size,
                    pref.front_prop,
                    pref.min_forks,
                    pref.max_forks,
                );
                goal.0 == edges@ + remt.0 && goal.1 == remt.1
            }),
        ensures
            rng_stream(*rng) == stream0,
            goal.0 == edges@,
            goal.1 == rng_index(*rng),
        decreases pref.size - next, queue@.len() - head,
    {
        if head >= queue.len() {
            proof {
                let active = queue@.subrange(head as int, queue@.len() as int);
                assert(active.len() == 0);
                let remt = tree_build(
                    stream0,
                    rng_index(*rng),
                    active,
                    next,
                    pref.size,
                    pref.front_prop,
                    pref.min_forks,
                    pref.max_forks,
                );
                assert(edges@ + remt.0 =~= edges@);
            }
            break;
        }

        let ghost active = queue@.subrange(head as int, queue@.len() as int);
        let ghost idx_cur = rng_index(*rng);
        let ghost remt = tree_build(
            stream0,
            idx_cur,
            active,
            next,
            pref.size,
            pref.front_prop,
            pref.min_forks,
            pref.max_forks,
        );

        let w1 = rng_next_u32(rng);
        let current: u32;
        if (w1 >> 8) < pref.front_prop {
            current = queue[head];
            head = head + 1;
            proof {
                assert(current == active.first());
                assert(queue@.subrange(head as int, queue@.len() as int) =~= active.drop_first());
            }
        } else {
            current = queue[queue.len() - 1];
            let _popped = queue.pop();
            proof {
                assert(current == active.last());
                assert(queue@.subrange(head as int, queue@.len() as int) =~= active.drop_last());
            }
        }
        let ghost rest = if takes_front(w1, pref.front_prop) {
            active.drop_first()
        } else {
            active.drop_last()
        };
        proof {
            assert(queue@.subrange(head as int, queue@.len() as int) == rest);
            assert(forall|i: int| head <= i < queue@.len() ==> queue@[i] < next);
        }

        let w2 = rng_next_u32(rng);
        let span: u64 = (pref.max_forks as u64) - (pref.min_forks as u64) + 1;
        let draw_rem: u64 = (w2 as u64) % span;
        let k0: u64 = (pref.min_forks as u64) + draw_rem;
        let cap: u32 = pref.size - next;
        let k: u32 = if k0 <= cap as u64 {
            k0 as u32
        } else {
            cap
        };
        proof {
            assert(draw_rem < span);
            assert(k0 <= pref.max_forks as u64);
            assert(k0 as int == fork_draw(w2, pref.min_forks, pref.max_forks));
            assert(k as int == ({
                let draw = fork_draw(w2, pref.min_forks, pref.max_forks);
                if draw <= pref.size - next {
                    draw
                } else {
                    pref.size - next
                }
            }));
        }
        let ghost nstart = next;
        let ghost kk = k as int;
        let ghost added = Seq::new(
            kk as nat,
            |i: int| Edge { source: current, target: (nstart + i) as u32 },
        );
        let ghost kids = Seq::new(kk as nat, |i: int| (nstart + i) as u32);
        let ghost edges0 = edges@;
        let ghost queue0 = queue@;
        proof {
            assert(forall|i: int| head <= i < queue0.len() ==> queue0[i] < nstart);
        }

        let mut j: u32 = 0;
        while j < k
            invariant
                j <= k,
                k as int == kk,
                0 <= nstart,
                next == nstart + j,
                nstart + kk <= pref.size,
                added.len() == kk,
                kids.len() == kk,
                forall|i: int|
                    0 <= i < kk ==> #[trigger] added[i] == (Edge {
                        source: current,
                        target: (nstart + i) as u32,
                    }),
                forall|i: int| 0 <= i < kk ==> #[trigger] kids[i] == (nstart + i) as u32,
                edges@ == edges0 + added.subrange(0, j as int),
                queue@ == queue0 + kids.subrange(0, j as int),
            decreases k - j,
        {
            edges.push(Edge { source: current, target: next });
            queue.push(next);
            next = next + 1;
            j = j + 1;
            proof {
                assert(added[j - 1] == Edge { source: current, target: (nstart + j - 1) as u32 });
                assert(kids[j - 1] == (nstart + j - 1) as u32);
                assert(edges@ =~= edges0 + added.subrange(0, j as int));
                assert(queue@ =~= queue0 + kids.subrange(0, j as int));
            }
        }

        proof {
            assert(added.subrange(0, kk) =~= added);
            assert(kids.subrange(0, kk) =~= kids);
            let w1s = stream_u32(stream0, idx_cur);
            let w2s = stream_u32(stream0, idx_cur + 1);
            assert(w1 == w1s);
            assert(w2 == w2s);
            let spec_current = if takes_front(w1s, pref.front_prop) {
                active.first()
            } else {
                active.last()
            };
            assert(current == spec_current);
            let draw = fork_draw(w2s, pref.min_forks, pref.max_forks);
            let ks = if draw <= pref.size - nstart {
                draw
            } else {
                pref.size - nstart
            };
            assert(kk == ks);
            let spec_added = Seq::new(
                ks as nat,
                |i: int| Edge { source: spec_current, target: (nstart + i) as u32 },
            );
            let spec_kids = Seq::new(ks as nat, |i: int| (nstart + i) as u32);
            assert(added =~= spec_added);
            assert(kids =~= spec_kids);
        }

        if next >= pref.size {
            proof {
                assert(remt.0 == added);
                assert(remt.1 == idx_cur + 2);
                assert(edges@ == edges0 + added);
                assert(goal.0 == edges0 + remt.0);
                assert(goal.0 == edges@);
                assert(rng_index(*rng) == idx_cur + 2);
            }
            break;
        }

        proof {
            let new_active = queue@.subrange(head as int, queue@.len() as int);
            assert(new_active =~= rest + kids) by {
                assert(queue@ == queue0 + kids);
                assert(queue0.subrange(head as int, queue0.len() as int) == rest);
            }
            let tail = tree_build(
                stream0,
                rng_index(*rng),
                rest + kids,
                next,
                pref.size,
                pref.front_prop,
                pref.min_forks,
                pref.max_forks,
            );
            assert(rng_index(*rng) == idx_cur + 2);
            assert(remt.0 == added + tail.0 && remt.1 == tail.1);
            assert(edges@ == edges0 + added);
            assert(goal.0 == edges0 + (added + tail.0));
            assert(goal.0 =~= edges@ + tail.0);
            assert forall|i: int| head <= i < queue@.len() implies queue@[i] < next by {
                if i < queue0.len() {
                    assert(queue@[i] == queue0[i]);
                } else {
                    assert(queue@[i] == kids[i - queue0.len()]);
                }
            }
        }
    }

    Ok(Dag { size: pref.size, edges })
}

} // verus!
