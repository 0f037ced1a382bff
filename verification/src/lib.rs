//! Synthesizes random directed acyclic graphs for use as test and benchmark
//! inputs: a biased double-ended traversal builds random spanning trees over a
//! dense node range, and several independently built trees are merged into one
//! DAG by a duplicate-free union of their edge sets.

use vstd::prelude::*;

pub mod graph;
pub mod rng;
pub mod tree;

pub use graph::Dag;
pub use graph::Edge;
pub use graph::contains_edge;
pub use graph::edge_valid;
pub use graph::edges_valid;
pub use graph::merge_dags;
pub use graph::merged_edges;
pub use graph::no_dup_edges;
pub use rng::rng_index;
pub use rng::rng_stream;
pub use rng::seed_stream;
pub use rng::stream_u32;
pub use tree::fork_draw;
pub use tree::generate_tree;
pub use tree::takes_front;
pub use tree::tree_build;

verus! {

broadcast use vstd::string::group_string_axioms;

/// The fixed-point denominator of `Pref::front_prop`: this many parts stand
/// for probability one.
pub const FRONT_PROP_ONE: u32 = 0x1000000;

/// The preferences that steer one generation run. `front_prop` is the
/// traversal-bias probability as a fixed-point fraction of `FRONT_PROP_ONE`
/// (so `0` stands for probability zero and `FRONT_PROP_ONE` for probability
/// one); `min_forks` and `max_forks` bound, inclusively, how many children a
/// node receives per step; `iterations` counts the additional trees merged
/// into the first; an absent `seed` asks for entropy seeding.
#[derive(Clone, Copy, Debug)]
pub struct Pref {
    pub size: u32,
    pub iterations: u32,
    pub seed: Option<u64>,
    pub front_prop: u32,
    pub max_forks: u32,
    pub min_forks: u32,
}

impl Pref {
    /// The bias probability lies in the closed unit interval.
    pub open spec fn front_prop_ok(self) -> bool {
        self.front_prop <= FRONT_PROP_ONE
    }

    /// The fork bounds form a non-empty inclusive range.
    pub open spec fn forks_ok(self) -> bool {
        self.min_forks <= self.max_forks
    }

    /// At least one node is asked for: an empty graph has no root to grow a
    /// spanning tree from.
    pub open spec fn size_ok(self) -> bool {
        self.size >= 1
    }

    /// The preferences that generation accepts.
    pub open spec fn valid(self) -> bool {
        self.front_prop_ok() && self.forks_ok() && self.size_ok()
    }
}

/// The two failure kinds: a configuration the validator rejects, and an
/// internal invariant violation during generation (never produced by this
/// library's construction, but part of its interface).
#[derive(Debug)]
pub enum Error {
    InternalError(String),
    PreferenceError(String),
}

/// Rejects nonsensical preferences before any generation work begins. The
/// checks short-circuit in order: bias probability out of the unit interval,
/// then an empty fork range, then a node count of zero.
pub fn validate_preferences(pref: &Pref) -> (r: Result<(), Error>)
    ensures
        r is Ok <==> pref.valid(),
        !pref.front_prop_ok() ==> (r matches Err(Error::PreferenceError(m)) && m@
            == "--front-prop has to be between 0 and 1!"@),
        pref.front_prop_ok() && !pref.forks_ok() ==> (r matches Err(Error::PreferenceError(m))
            && m@ == "The maximum number of forks can not be lower than the minimum number of forks!"@),
        pref.front_prop_ok() && pref.forks_ok() && !pref.size_ok() ==> (r matches Err(
            Error::PreferenceError(m),
        ) && m@ == "--size has to be at least 1!"@),
{
    if pref.front_prop > FRONT_PROP_ONE {
        return Err(Error::PreferenceError("--front-prop has to be between 0 and 1!".to_string()));
    }
    if pref.max_forks < pref.min_forks {
        return Err(
            Error::PreferenceError(
                "The maximum number of forks can not be lower than the minimum number of forks!".to_string(),
            ),
        );
    }
    if pref.size == 0 {
        return Err(Error::PreferenceError("--size has to be at least 1!".to_string()));
    }
    Ok(())
}

/// Builds the pseudorandom generator for one run: deterministic when a seed
/// is given, entropy-seeded otherwise.
pub fn get_random_generator(pref: &Pref) -> (r: rand_chacha::ChaCha20Rng)
    ensures
        rng::rng_index(r) == 0,
        pref.seed matches Some(s) ==> rng::rng_stream(r) == seed_stream(s),
{
    match pref.seed {
        Some(seed) => rng::rng_from_seed(seed),
        None => rng::rng_from_entropy(),
    }
}

/// Folds `iters` further trees into the accumulator `acc`: each tree is built
/// from the stream where the previous build left off, and its edges are
/// merged in with duplicates discarded.
pub open spec fn dag_build(
    stream: int,
    index: nat,
    acc: Seq<Edge>,
    iters: nat,
    size: u32,
    front_prop: u32,
    min_forks: u32,
    max_forks: u32,
) -> Seq<Edge>
    decreases iters,
{
    if iters == 0 {
        acc
    } else {
        let t = tree::tree_build(stream, index, seq![0u32], 1u32, size, front_prop, min_forks,
            max_forks);
        dag_build(
            stream,
            t.1,
            merged_edges(acc, t.0),
            (iters - 1) as nat,
            size,
            front_prop,
            min_forks,
            max_forks,
        )
    }
}

/// The edge list of one whole generation run on stream `stream`: the first
/// tree, with the edges of `iterations` further trees merged in, every tree
/// drawing from the single stream where the previous one left off.
pub open spec fn dag_edges(stream: int, p: Pref) -> Seq<Edge> {
    let t = tree::tree_build(stream, 0, seq![0u32], 1u32, p.size, p.front_prop, p.min_forks,
        p.max_forks);
    dag_build(stream, t.1, t.0, p.iterations as nat, p.size, p.front_prop, p.min_forks, p.max_forks)
}

/// Generates the final DAG for `pref`: validates the preferences, builds one
/// spanning tree, then merges in `iterations` further trees, all drawing from
/// a single generator. On success the result is a well-formed DAG of exactly
/// `pref.size` nodes whose edge list is exactly `dag_edges` of the
/// generator's stream; with a seed given, that stream — and with it the whole
/// result — is a function of the preferences alone.
pub fn generate_dag(pref: &Pref) -> (r: Result<Dag, Error>)
    ensures
        r is Ok <==> pref.valid(),
        !pref.front_prop_ok() ==> (r matches Err(Error::PreferenceError(m)) && m@
            == "--front-prop has to be between 0 and 1!"@),
        pref.front_prop_ok() && !pref.forks_ok() ==> (r matches Err(Error::PreferenceError(m))
            && m@ == "The maximum number of forks can not be lower than the minimum number of forks!"@),
        pref.front_prop_ok() && pref.forks_ok() && !pref.size_ok() ==> (r matches Err(
            Error::PreferenceError(m),
        ) && m@ == "--size has to be at least 1!"@),
        r matches Ok(d) ==> ({
            &&& d.size == pref.size
            &&& d.wf()
            &&& exists|sid: int| d.edges@ == dag_edges(sid, *pref)
            &&& (pref.seed matches Some(s) ==> d.edges@ == dag_edges(seed_stream(s), *pref))
        }),
{
    match validate_preferences(pref) {
        Err(e) => {
            return Err(e);
        },
        Ok(()) => {},
    }
    let mut rng = get_random_generator(pref);
    let ghost stream0 = rng::rng_stream(rng);
    let mut akk = match generate_tree(pref, &mut rng) {
        Ok(d) => d,
        Err(e) => {
            return Err(e);
        },
    };
    proof {
        tree::lemma_tree_build_wf(stream0, 0, pref.size, pref.front_prop, pref.min_forks,
            pref.max_forks);
    }
    let mut it: u32 = 0;
    while it < pref.iterations
        invariant
            pref.valid(),
            it <= pref.iterations,
            rng::rng_stream(rng) == stream0,
            akk.size == pref.size,
            akk.wf(),
            dag_edges(stream0, *pref) == dag_build(
                stream0,
                rng::rng_index(rng),
                akk.edges@,
                (pref.iterations - it) as nat,
                pref.size,
                pref.front_prop,
                pref.min_forks,
                pref.max_forks,
            ),
        decreases pref.iterations - it,
    {
        let ghost idx_cur = rng::rng_index(rng);
        let tree = match generate_tree(pref, &mut rng) {
            Ok(d) => d,
            Err(e) => {
                return Err(e);
            },
        };
        let merged = match merge_dags(&akk, &tree) {
            Ok(d) => d,
            Err(e) => {
                return Err(e);
            },
        };
        proof {
            tree::lemma_tree_build_wf(stream0, idx_cur, pref.size, pref.front_prop, pref.min_forks,
                pref.max_forks);
            graph::lemma_merged_edges_valid(akk.edges@, tree.edges@, pref.size);
            graph::lemma_merged_edges_no_dup(akk.edges@, tree.edges@);
        }
        akk = merged;
        it = it + 1;
    }
    proof {
        assert(dag_edges(stream0, *pref) == akk.edges@);
    }
    Ok(akk)
}

/// The fold keeps the accumulator well formed: merged-in trees are well
/// formed themselves, and a duplicate-free union stays duplicate-free.
pub proof fn lemma_dag_build_wf(
    stream: int,
    index: nat,
    acc: Seq<Edge>,
    iters: nat,
    size: u32,
    front_prop: u32,
    min_forks: u32,
    max_forks: u32,
)
    requires
        edges_valid(acc, size),
        no_dup_edges(acc),
    ensures
        edges_valid(dag_build(stream, index, acc, iters, size, front_prop, min_forks, max_forks),
            size),
        no_dup_edges(dag_build(stream, index, acc, iters, size, front_prop, min_forks, max_forks)),
    decreases iters,
{
    if iters > 0 {
        let t = tree::tree_build(stream, index, seq![0u32], 1u32, size, front_prop, min_forks,
            max_forks);
        tree::lemma_tree_build_wf(stream, index, size, front_prop, min_forks, max_forks);
        graph::lemma_merged_edges_valid(acc, t.0, size);
        graph::lemma_merged_edges_no_dup(acc, t.0);
        lemma_dag_build_wf(
            stream,
            t.1,
            merged_edges(acc, t.0),
            (iters - 1) as nat,
            size,
            front_prop,
            min_forks,
            max_forks,
        );
    }
}

/// Every generation result is well formed, whatever stream it draws from:
/// each edge ascends within `[0, size)` — so there is no self-loop, no
/// out-of-range index and no cycle — and no edge appears twice.
pub proof fn lemma_dag_edges_wf(stream: int, p: Pref)
    ensures
        edges_valid(dag_edges(stream, p), p.size),
        no_dup_edges(dag_edges(stream, p)),
{
    let t = tree::tree_build(stream, 0, seq![0u32], 1u32, p.size, p.front_prop, p.min_forks,
        p.max_forks);
    tree::lemma_tree_build_wf(stream, 0, p.size, p.front_prop, p.min_forks, p.max_forks);
    lemma_dag_build_wf(stream, t.1, t.0, p.iterations as nat, p.size, p.front_prop, p.min_forks,
        p.max_forks);
}

/// A run with no extra iterations yields exactly `size - 1` edges, provided
/// every step forks at least once (`min_forks >= 1`). Without that bound a
/// fork draw of zero consumes an open node childless, and the open queue can
/// run dry before every index is assigned.
pub proof fn lemma_zero_iterations_edge_count(stream: int, p: Pref)
    requires
        p.valid(),
        p.iterations == 0,
        p.min_forks >= 1,
    ensures
        dag_edges(stream, p).len() == p.size - 1,
{
    tree::lemma_tree_build_count(stream, 0, seq![0u32], 1u32, p.size, p.front_prop, p.min_forks,
        p.max_forks);
}

/// The fold never loses edges: its result is at least as long as the
/// accumulator it starts from.
pub proof fn lemma_dag_build_ge_acc(
    stream: int,
    index: nat,
    acc: Seq<Edge>,
    iters: nat,
    size: u32,
    front_prop: u32,
    min_forks: u32,
    max_forks: u32,
)
    ensures
        dag_build(stream, index, acc, iters, size, front_prop, min_forks, max_forks).len()
            >= acc.len(),
    decreases iters,
{
    if iters > 0 {
        let t = tree::tree_build(stream, index, seq![0u32], 1u32, size, front_prop, min_forks,
            max_forks);
        graph::lemma_merged_edges_len(acc, t.0);
        lemma_dag_build_ge_acc(
            stream,
            t.1,
            merged_edges(acc, t.0),
            (iters - 1) as nat,
            size,
            front_prop,
            min_forks,
            max_forks,
        );
    }
}

/// Folding in more trees never decreases the edge count.
pub proof fn lemma_dag_build_monotone(
    stream: int,
    index: nat,
    acc: Seq<Edge>,
    n1: nat,
    n2: nat,
    size: u32,
    front_prop: u32,
    min_forks: u32,
    max_forks: u32,
)
    requires
        n1 <= n2,
    ensures
        dag_build(stream, index, acc, n1, size, front_prop, min_forks, max_forks).len()
            <= dag_build(stream, index, acc, n2, size, front_prop, min_forks, max_forks).len(),
    decreases n1,
{
    if n1 == 0 {
        lemma_dag_build_ge_acc(stream, index, acc, n2, size, front_prop, min_forks, max_forks);
    } else {
        let t = tree::tree_build(stream, index, seq![0u32], 1u32, size, front_prop, min_forks,
            max_forks);
        lemma_dag_build_monotone(
            stream,
            t.1,
            merged_edges(acc, t.0),
            (n1 - 1) as nat,
            (n2 - 1) as nat,
            size,
            front_prop,
            min_forks,
            max_forks,
        );
    }
}

/// Raising `iterations` while holding the stream and the shape preferences
/// fixed never decreases the edge count of the result: merging only adds or
/// keeps edges.
pub proof fn lemma_iterations_monotone(stream: int, p1: Pref, p2: Pref)
    requires
        p1.size == p2.size,
        p1.front_prop == p2.front_prop,
        p1.min_forks == p2.min_forks,
        p1.max_forks == p2.max_forks,
        p1.iterations <= p2.iterations,
    ensures
        dag_edges(stream, p1).len() <= dag_edges(stream, p2).len(),
{
    let t = tree::tree_build(stream, 0, seq![0u32], 1u32, p1.size, p1.front_prop, p1.min_forks,
        p1.max_forks);
    lemma_dag_build_monotone(
        stream,
        t.1,
        t.0,
        p1.iterations as nat,
        p2.iterations as nat,
        p1.size,
        p1.front_prop,
        p1.min_forks,
        p1.max_forks,
    );
}

/// With exactly one fork per step and no extra iterations the result is the
/// path `0 → 1 → ... → size-1`, whatever the stream and the bias: only one
/// node is ever open, so each new node becomes the single child of the
/// previous one.
pub proof fn lemma_path_graph(stream: int, p: Pref)
    requires
        p.valid(),
        p.iterations == 0,
        p.min_forks == 1,
        p.max_forks == 1,
    ensures
        dag_edges(stream, p).len() == p.size - 1,
        forall|i: int|
            0 <= i < dag_edges(stream, p).len() ==> #[trigger] dag_edges(stream, p)[i] == (Edge {
                source: i as u32,
                target: (i + 1) as u32,
            }),
{
    tree::lemma_tree_build_chain(stream, 0, 0u32, 1u32, p.size, p.front_prop);
}

} // verus!
