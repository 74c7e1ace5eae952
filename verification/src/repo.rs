//! A model of the sandboxed repository tree and its structural operations:
//! list, create directory, upload, delete file, delete directory, rename and
//! move. The tree is a set of nodes addressed by validated segment paths;
//! its abstract contents are a map from paths to (is-file, content) pairs.
//! Every entry has valid segments, and every entry's parent is present and
//! is a directory. The surrounding process mirrors each operation onto the
//! real filesystem; concurrent requests racing on the same real path are an
//! accepted limitation of that mirror, not of this model.

use vstd::prelude::*;
use crate::paths::valid_rel_path;
use crate::paths::valid_seg;
use crate::OpError;

verus! {

/// One listing record: the final path segment of a child, and whether it is
/// a file. Exactly files and directories are reported; nothing else is
/// representable here.
pub struct Entry {
    pub name: String,
    pub is_file: bool,
}

/// The body of a rename request: the bare new name, not a path.
pub struct RenameDirPayload {
    pub new_name: String,
}

/// The body of a move request: the destination directory path.
pub struct MoveEntryPayload {
    pub new_path: String,
}

/// The abstract contents of a repository: each present path maps to whether
/// it is a file and to its content (directories carry empty content).
pub type RepoMap = Map<Seq<Seq<char>>, (bool, Seq<u8>)>;

/// `p` is an initial run of `q` (every path is a prefix of itself).
pub open spec fn is_prefix(p: Seq<Seq<char>>, q: Seq<Seq<char>>) -> bool {
    p.len() <= q.len() && forall|i: int| 0 <= i < p.len() ==> p[i] == q[i]
}

struct RepoNode {
    path: Vec<String>,
    is_file: bool,
    content: Vec<u8>,
}

impl RepoNode {
    spec fn path_view(self) -> Seq<Seq<char>> {
        self.path.deep_view()
    }

    spec fn val(self) -> (bool, Seq<u8>) {
        (self.is_file, self.content@)
    }
}

spec fn map_of(nodes: Seq<RepoNode>) -> RepoMap
    decreases nodes.len(),
{
    if nodes.len() == 0 {
        Map::empty()
    } else {
        map_of(nodes.drop_last()).insert(nodes.last().path_view(), nodes.last().val())
    }
}

spec fn node_ok(n: RepoNode) -> bool {
    &&& n.path_view().len() >= 1
    &&& valid_rel_path(n.path_view())
    &&& (!n.is_file ==> n.content@.len() == 0)
}

spec fn nodes_ok(nodes: Seq<RepoNode>) -> bool {
    forall|i: int| 0 <= i < nodes.len() ==> node_ok(#[trigger] nodes[i])
}

spec fn unique_paths(nodes: Seq<RepoNode>) -> bool {
    forall|i: int, j: int|
        0 <= i < j < nodes.len() ==> (#[trigger] nodes[i]).path_view() != (
        #[trigger] nodes[j]).path_view()
}

spec fn parents_ok(nodes: Seq<RepoNode>) -> bool {
    forall|i: int|
        0 <= i < nodes.len() && (#[trigger] nodes[i]).path_view().len() > 1 ==> {
            let par = nodes[i].path_view().drop_last();
            map_of(nodes).contains_key(par) && !map_of(nodes)[par].0
        }
}

proof fn lemma_map_of_contains(nodes: Seq<RepoNode>, p: Seq<Seq<char>>)
    ensures
        map_of(nodes).contains_key(p) <==> exists|i: int|
            0 <= i < nodes.len() && (#[trigger] nodes[i]).path_view() == p,
    decreases nodes.len(),
{
    if nodes.len() > 0 {
        lemma_map_of_contains(nodes.drop_last(), p);
        if map_of(nodes).contains_key(p) {
            if nodes.last().path_view() == p {
                assert(nodes[nodes.len() - 1].path_view() == p);
            } else {
                let i = choose|i: int|
                    0 <= i < nodes.drop_last().len() && (#[trigger] nodes.drop_last()[i]).path_view()
                        == p;
                assert(nodes[i].path_view() == p);
            }
        }
        if exists|i: int| 0 <= i < nodes.len() && (#[trigger] nodes[i]).path_view() == p {
            let i = choose|i: int| 0 <= i < nodes.len() && (#[trigger] nodes[i]).path_view() == p;
            if i < nodes.len() - 1 {
                assert(nodes.drop_last()[i].path_view() == p);
            }
        }
    }
}

proof fn lemma_map_of_index(nodes: Seq<RepoNode>, i: int)
    requires
        unique_paths(nodes),
        0 <= i < nodes.len(),
    ensures
        map_of(nodes).contains_key(nodes[i].path_view()),
        map_of(nodes)[nodes[i].path_view()] == nodes[i].val(),
    decreases nodes.len(),
{
    if i < nodes.len() - 1 {
        assert(unique_paths(nodes.drop_last())) by {
            assert forall|a: int, b: int|
                0 <= a < b < nodes.drop_last().len() implies (
            #[trigger] nodes.drop_last()[a]).path_view() != (
            #[trigger] nodes.drop_last()[b]).path_view() by {
                assert(nodes[a].path_view() != nodes[b].path_view());
            }
        }
        lemma_map_of_index(nodes.drop_last(), i);
        assert(nodes.drop_last()[i] == nodes[i]);
        assert(nodes[i].path_view() != nodes.last().path_view());
    }
}

spec fn listing_sound(nodes: Seq<RepoNode>, pv: Seq<Seq<char>>, es: Seq<Entry>, i: int) -> bool {
    forall|j: int|
        0 <= j < es.len() ==> exists|k: int|
            0 <= k < i && (#[trigger] nodes[k]).path_view() == pv.push((#[trigger] es[j]).name@)
                && nodes[k].is_file == es[j].is_file
}

spec fn listing_complete(
    nodes: Seq<RepoNode>,
    pv: Seq<Seq<char>>,
    es: Seq<Entry>,
    i: int,
) -> bool {
    forall|k: int|
        0 <= k < i && (#[trigger] nodes[k]).path_view().len() == pv.len() + 1 && is_prefix(
            pv,
            nodes[k].path_view(),
        ) ==> exists|j: int|
            0 <= j < es.len() && (#[trigger] es[j]).name@ == nodes[k].path_view().last()
}

spec fn names_unique(es: Seq<Entry>) -> bool {
    forall|j1: int, j2: int|
        0 <= j1 < j2 < es.len() ==> (#[trigger] es[j1]).name@ != (#[trigger] es[j2]).name@
}

proof fn lemma_list_skip(nodes: Seq<RepoNode>, pv: Seq<Seq<char>>, es: Seq<Entry>, i: int)
    requires
        listing_sound(nodes, pv, es, i),
        listing_complete(nodes, pv, es, i),
        0 <= i < nodes.len(),
        !(nodes[i].path_view().len() == pv.len() + 1 && is_prefix(pv, nodes[i].path_view())),
    ensures
        listing_sound(nodes, pv, es, i + 1),
        listing_complete(nodes, pv, es, i + 1),
{
    assert forall|j: int| 0 <= j < es.len() implies exists|k: int|
        0 <= k < i + 1 && (#[trigger] nodes[k]).path_view() == pv.push((#[trigger] es[j]).name@)
            && nodes[k].is_file == es[j].is_file by {
        let k = choose|k: int|
            0 <= k < i && (#[trigger] nodes[k]).path_view() == pv.push((#[trigger] es[j]).name@)
                && nodes[k].is_file == es[j].is_file;
        assert(0 <= k < i + 1 && nodes[k].path_view() == pv.push(es[j].name@) && nodes[k].is_file
            == es[j].is_file);
    }
}

proof fn lemma_list_push(
    nodes: Seq<RepoNode>,
    pv: Seq<Seq<char>>,
    es: Seq<Entry>,
    es2: Seq<Entry>,
    i: int,
)
    requires
        unique_paths(nodes),
        listing_sound(nodes, pv, es, i),
        listing_complete(nodes, pv, es, i),
        names_unique(es),
        0 <= i < nodes.len(),
        nodes[i].path_view().len() == pv.len() + 1,
        is_prefix(pv, nodes[i].path_view()),
        es2.len() == es.len() + 1,
        forall|j: int| 0 <= j < es.len() ==> #[trigger] es2[j] == es[j],
        es2.last().name@ == nodes[i].path_view().last(),
        es2.last().is_file == nodes[i].is_file,
    ensures
        listing_sound(nodes, pv, es2, i + 1),
        listing_complete(nodes, pv, es2, i + 1),
        names_unique(es2),
{
    assert(nodes[i].path_view() =~= pv.push(nodes[i].path_view().last()));
    assert forall|j: int| 0 <= j < es2.len() implies exists|k: int|
        0 <= k < i + 1 && (#[trigger] nodes[k]).path_view() == pv.push((#[trigger] es2[j]).name@)
            && nodes[k].is_file == es2[j].is_file by {
        if j < es.len() {
            let k = choose|k: int|
                0 <= k < i && (#[trigger] nodes[k]).path_view() == pv.push(
                    (#[trigger] es[j]).name@,
                ) && nodes[k].is_file == es[j].is_file;
            assert(es2[j] == es[j]);
            assert(0 <= k < i + 1 && nodes[k].path_view() == pv.push(es2[j].name@)
                && nodes[k].is_file == es2[j].is_file);
        } else {
            assert(es2[j] == es2.last());
            assert(0 <= i < i + 1 && nodes[i].path_view() == pv.push(es2[j].name@)
                && nodes[i].is_file == es2[j].is_file);
        }
    }
    assert forall|k: int|
        0 <= k < i + 1 && (#[trigger] nodes[k]).path_view().len() == pv.len() + 1 && is_prefix(
            pv,
            nodes[k].path_view(),
        ) implies exists|j: int|
        0 <= j < es2.len() && (#[trigger] es2[j]).name@ == nodes[k].path_view().last() by {
        if k < i {
            let j = choose|j: int|
                0 <= j < es.len() && (#[trigger] es[j]).name@ == nodes[k].path_view().last();
            assert(es2[j] == es[j]);
            assert(0 <= j < es2.len() && es2[j].name@ == nodes[k].path_view().last());
        } else {
            let j = es2.len() - 1;
            assert(es2[j].name@ == nodes[k].path_view().last());
        }
    }
    assert forall|j1: int, j2: int| 0 <= j1 < j2 < es2.len() implies (
    #[trigger] es2[j1]).name@ != (#[trigger] es2[j2]).name@ by {
        if j2 < es.len() {
            assert(es2[j1] == es[j1] && es2[j2] == es[j2]);
        } else {
            assert(es2[j2] == es2.last());
            assert(es2[j1] == es[j1]);
            if es[j1].name@ == es2.last().name@ {
                let k = choose|k: int|
                    0 <= k < i && (#[trigger] nodes[k]).path_view() == pv.push(
                        (#[trigger] es[j1]).name@,
                    ) && nodes[k].is_file == es[j1].is_file;
                assert(nodes[k].path_view() == nodes[i].path_view());
                assert(false);
            }
        }
    }
}

proof fn lemma_list_final(nodes: Seq<RepoNode>, pv: Seq<Seq<char>>, es: Seq<Entry>)
    requires
        unique_paths(nodes),
        listing_sound(nodes, pv, es, nodes.len() as int),
        listing_complete(nodes, pv, es, nodes.len() as int),
    ensures
        forall|j: int|
            0 <= j < es.len() ==> map_of(nodes).contains_key(
                pv.push((#[trigger] es[j]).name@),
            ) && map_of(nodes)[pv.push(es[j].name@)].0 == es[j].is_file,
        forall|q: Seq<Seq<char>>|
            #[trigger] map_of(nodes).contains_key(q) && q.len() == pv.len() + 1 && is_prefix(
                pv,
                q,
            ) ==> exists|j: int| 0 <= j < es.len() && (#[trigger] es[j]).name@ == q.last(),
{
    assert forall|j: int| 0 <= j < es.len() implies map_of(nodes).contains_key(
        pv.push((#[trigger] es[j]).name@),
    ) && map_of(nodes)[pv.push(es[j].name@)].0 == es[j].is_file by {
        let k = choose|k: int|
            0 <= k < nodes.len() && (#[trigger] nodes[k]).path_view() == pv.push(
                (#[trigger] es[j]).name@,
            ) && nodes[k].is_file == es[j].is_file;
        lemma_map_of_index(nodes, k);
    }
    assert forall|q: Seq<Seq<char>>|
        #[trigger] map_of(nodes).contains_key(q) && q.len() == pv.len() + 1 && is_prefix(
            pv,
            q,
        ) implies exists|j: int| 0 <= j < es.len() && (#[trigger] es[j]).name@ == q.last() by {
        lemma_map_of_contains(nodes, q);
        let k = choose|k: int| 0 <= k < nodes.len() && (#[trigger] nodes[k]).path_view() == q;
        assert(nodes[k].path_view().len() == pv.len() + 1);
        assert(is_prefix(pv, nodes[k].path_view()));
        let j = choose|j: int|
            0 <= j < es.len() && (#[trigger] es[j]).name@ == nodes[k].path_view().last();
        assert(es[j].name@ == q.last());
    }
}

/// What a successful listing of the directory `pv` holds: every entry is a
/// present child with its correct classification, every present child
/// appears, and no name repeats.
pub open spec fn listing_of(repo: Repo, pv: Seq<Seq<char>>, es: Seq<Entry>) -> bool {
    &&& forall|j: int|
        0 <= j < es.len() ==> repo.has(pv.push((#[trigger] es[j]).name@)) && repo.entries()[pv.push(
            es[j].name@,
        )].0 == es[j].is_file
    &&& forall|q: Seq<Seq<char>>|
        #[trigger] repo.has(q) && q.len() == pv.len() + 1 && is_prefix(pv, q) ==> exists|j: int|
            0 <= j < es.len() && (#[trigger] es[j]).name@ == q.last()
    &&& forall|j1: int, j2: int|
        0 <= j1 < j2 < es.len() ==> (#[trigger] es[j1]).name@ != (#[trigger] es[j2]).name@
}

proof fn lemma_ancestors_nodes(nodes: Seq<RepoNode>, q: Seq<Seq<char>>, k: int)
    requires
        unique_paths(nodes),
        parents_ok(nodes),
        map_of(nodes).contains_key(q),
        1 <= k <= q.len(),
    ensures
        map_of(nodes).contains_key(q.take(k)),
        k < q.len() ==> !map_of(nodes)[q.take(k)].0,
    decreases q.len() - k,
{
    if k == q.len() {
        assert(q.take(k) =~= q);
    } else {
        lemma_ancestors_nodes(nodes, q, k + 1);
        lemma_map_of_contains(nodes, q.take(k + 1));
        let i = choose|i: int|
            0 <= i < nodes.len() && (#[trigger] nodes[i]).path_view() == q.take(k + 1);
        assert(nodes[i].path_view().len() == k + 1);
        assert(nodes[i].path_view().drop_last() =~= q.take(k));
    }
}

/// The path a relocation of the subtree at `from` to `to` gives to `path`.
pub open spec fn seg_rewrite(
    path: Seq<Seq<char>>,
    from: Seq<Seq<char>>,
    to: Seq<Seq<char>>,
) -> Seq<Seq<char>> {
    if is_prefix(from, path) {
        to + path.skip(from.len() as int)
    } else {
        path
    }
}

/// How the contents change when the subtree at `from` moves to `to`: paths
/// under neither stay untouched, every path under `from` reappears under
/// `to` with its value and nothing else appears under `to`, and nothing at
/// all is left under `from`.
pub open spec fn relocated_maps(
    old_m: RepoMap,
    new_m: RepoMap,
    from: Seq<Seq<char>>,
    to: Seq<Seq<char>>,
) -> bool {
    &&& forall|q: Seq<Seq<char>>|
        #[trigger] old_m.contains_key(q) && !is_prefix(from, q) && !is_prefix(to, q)
            ==> new_m.contains_key(q) && new_m[q] == old_m[q]
    &&& forall|q: Seq<Seq<char>>|
        #[trigger] new_m.contains_key(q) && !is_prefix(from, q) && !is_prefix(to, q)
            ==> old_m.contains_key(q)
    &&& forall|q: Seq<Seq<char>>|
        #[trigger] old_m.contains_key(q) && is_prefix(from, q) ==> new_m.contains_key(
            to + q.skip(from.len() as int),
        ) && new_m[to + q.skip(from.len() as int)] == old_m[q]
    &&& forall|q: Seq<Seq<char>>|
        #[trigger] new_m.contains_key(q) && is_prefix(to, q) ==> old_m.contains_key(
            from + q.skip(to.len() as int),
        ) && new_m[q] == old_m[from + q.skip(to.len() as int)]
    &&& forall|q: Seq<Seq<char>>| #[trigger] new_m.contains_key(q) ==> !is_prefix(from, q)
}

spec fn relocation_of(
    old_nodes: Seq<RepoNode>,
    out: Seq<RepoNode>,
    from: Seq<Seq<char>>,
    to: Seq<Seq<char>>,
) -> bool {
    &&& out.len() == old_nodes.len()
    &&& forall|k: int|
        0 <= k < out.len() ==> (#[trigger] out[k]).path_view() == seg_rewrite(
            (#[trigger] old_nodes[k]).path_view(),
            from,
            to,
        ) && out[k].is_file == old_nodes[k].is_file && out[k].content@ == old_nodes[k].content@
}

#[verifier::rlimit(100)]
#[verifier::spinoff_prover]
proof fn lemma_relocate(
    old_nodes: Seq<RepoNode>,
    out: Seq<RepoNode>,
    from: Seq<Seq<char>>,
    to: Seq<Seq<char>>,
)
    requires
        nodes_ok(old_nodes),
        unique_paths(old_nodes),
        parents_ok(old_nodes),
        from.len() >= 1,
        to.len() >= 1,
        valid_rel_path(to),
        map_of(old_nodes).contains_key(from),
        !map_of(old_nodes).contains_key(to),
        !is_prefix(from, to),
        to.len() == 1 || (map_of(old_nodes).contains_key(to.drop_last()) && !map_of(
            old_nodes,
        )[to.drop_last()].0),
        relocation_of(old_nodes, out, from, to),
    ensures
        nodes_ok(out),
        unique_paths(out),
        parents_ok(out),
        relocated_maps(map_of(old_nodes), map_of(out), from, to),
{
    // `to` is not an ancestor of `from` either
    assert(!is_prefix(to, from)) by {
        if is_prefix(to, from) {
            if to.len() == from.len() {
                assert(to =~= from);
            } else {
                lemma_ancestors_nodes(old_nodes, from, to.len() as int);
                assert(from.take(to.len() as int) =~= to);
            }
        }
    }
    // an untouched node path never lies under `to`
    assert forall|k: int|
        0 <= k < old_nodes.len() && !is_prefix(from, (#[trigger] old_nodes[k]).path_view())
            implies !is_prefix(to, old_nodes[k].path_view()) by {
        let path = old_nodes[k].path_view();
        if is_prefix(to, path) {
            lemma_map_of_index(old_nodes, k);
            if to.len() == path.len() {
                assert(to =~= path);
            } else {
                lemma_ancestors_nodes(old_nodes, path, to.len() as int);
                assert(path.take(to.len() as int) =~= to);
            }
            assert(false);
        }
    }
    // a moved node path always lies under `to` and never under `from`
    assert forall|k: int|
        0 <= k < old_nodes.len() && is_prefix(from, (#[trigger] old_nodes[k]).path_view())
            implies is_prefix(to, out[k].path_view()) && !is_prefix(from, out[k].path_view())
            && (out[k].path_view()).skip(to.len() as int) =~= (old_nodes[k].path_view()).skip(
            from.len() as int,
        ) by {
        let path = old_nodes[k].path_view();
        let s = path.skip(from.len() as int);
        assert(out[k].path_view() == to + s);
        assert(is_prefix(to, to + s));
        assert((to + s).skip(to.len() as int) =~= s);
        if is_prefix(from, to + s) {
            if from.len() <= to.len() {
                assert forall|i: int| 0 <= i < from.len() implies from[i] == to[i] by {
                    assert((to + s)[i] == to[i]);
                }
                assert(is_prefix(from, to));
                assert(false);
            } else {
                assert forall|i: int| 0 <= i < to.len() implies to[i] == from[i] by {
                    assert((to + s)[i] == to[i]);
                }
                assert(is_prefix(to, from));
                assert(false);
            }
        }
    }
    // a moved path reassembles to its original under `from`
    assert forall|k: int|
        0 <= k < old_nodes.len() && is_prefix(from, (#[trigger] old_nodes[k]).path_view())
            implies from + (old_nodes[k].path_view()).skip(from.len() as int)
            =~= old_nodes[k].path_view() by {
    }
    assert(nodes_ok(out)) by {
        assert forall|k: int| 0 <= k < out.len() implies node_ok(#[trigger] out[k]) by {
            let path = old_nodes[k].path_view();
            assert(node_ok(old_nodes[k]));
            if is_prefix(from, path) {
                let s = path.skip(from.len() as int);
                assert(out[k].path_view() == to + s);
                assert forall|i: int| 0 <= i < (to + s).len() implies valid_seg(
                    #[trigger] (to + s)[i],
                ) by {
                    if i < to.len() {
                        assert((to + s)[i] == to[i]);
                    } else {
                        assert((to + s)[i] == path[i - to.len() + from.len()]);
                    }
                }
            }
        }
    }
    assert(unique_paths(out)) by {
        assert forall|a: int, b: int| 0 <= a < b < out.len() implies (
        #[trigger] out[a]).path_view() != (#[trigger] out[b]).path_view() by {
            let pa = old_nodes[a].path_view();
            let pb = old_nodes[b].path_view();
            assert(pa != pb);
            if is_prefix(from, pa) && is_prefix(from, pb) {
                if out[a].path_view() == out[b].path_view() {
                    assert(pa =~= pb);
                }
            } else if !is_prefix(from, pa) && !is_prefix(from, pb) {
            } else {
                // one is under `to` after the move, the other is not
            }
        }
    }
    let old_m = map_of(old_nodes);
    let new_m = map_of(out);
    assert forall|q: Seq<Seq<char>>|
        #[trigger] old_m.contains_key(q) && !is_prefix(from, q) && !is_prefix(to, q)
            implies new_m.contains_key(q) && new_m[q] == old_m[q] by {
        lemma_map_of_contains(old_nodes, q);
        let k = choose|k: int| 0 <= k < old_nodes.len() && (#[trigger] old_nodes[k]).path_view() == q;
        lemma_map_of_index(old_nodes, k);
        assert(out[k].path_view() == q);
        lemma_map_of_index(out, k);
    }
    assert forall|q: Seq<Seq<char>>|
        #[trigger] new_m.contains_key(q) && !is_prefix(from, q) && !is_prefix(to, q)
            implies old_m.contains_key(q) by {
        lemma_map_of_contains(out, q);
        let k = choose|k: int| 0 <= k < out.len() && (#[trigger] out[k]).path_view() == q;
        if is_prefix(from, old_nodes[k].path_view()) {
            assert(is_prefix(to, out[k].path_view()));
            assert(false);
        }
        assert(old_nodes[k].path_view() == q);
        lemma_map_of_index(old_nodes, k);
    }
    assert forall|q: Seq<Seq<char>>|
        #[trigger] old_m.contains_key(q) && is_prefix(from, q) implies new_m.contains_key(
        to + q.skip(from.len() as int),
    ) && new_m[to + q.skip(from.len() as int)] == old_m[q] by {
        lemma_map_of_contains(old_nodes, q);
        let k = choose|k: int| 0 <= k < old_nodes.len() && (#[trigger] old_nodes[k]).path_view() == q;
        lemma_map_of_index(old_nodes, k);
        assert(out[k].path_view() == to + q.skip(from.len() as int));
        lemma_map_of_index(out, k);
    }
    assert forall|q: Seq<Seq<char>>|
        #[trigger] new_m.contains_key(q) && is_prefix(to, q) implies old_m.contains_key(
        from + q.skip(to.len() as int),
    ) && new_m[q] == old_m[from + q.skip(to.len() as int)] by {
        lemma_map_of_contains(out, q);
        let k = choose|k: int| 0 <= k < out.len() && (#[trigger] out[k]).path_view() == q;
        lemma_map_of_index(out, k);
        let path = old_nodes[k].path_view();
        if !is_prefix(from, path) {
            assert(!is_prefix(to, path));
            assert(false);
        }
        assert(q.skip(to.len() as int) =~= path.skip(from.len() as int));
        assert(from + q.skip(to.len() as int) == path);
        lemma_map_of_index(old_nodes, k);
    }
    assert forall|q: Seq<Seq<char>>| #[trigger] new_m.contains_key(q) implies !is_prefix(
        from,
        q,
    ) by {
        lemma_map_of_contains(out, q);
        let k = choose|k: int| 0 <= k < out.len() && (#[trigger] out[k]).path_view() == q;
        if is_prefix(from, old_nodes[k].path_view()) {
            assert(!is_prefix(from, out[k].path_view()));
        } else {
            assert(out[k].path_view() == old_nodes[k].path_view());
        }
    }
    assert(parents_ok(out)) by {
        assert forall|k: int|
            0 <= k < out.len() && (#[trigger] out[k]).path_view().len() > 1 implies {
            let par = out[k].path_view().drop_last();
            map_of(out).contains_key(par) && !map_of(out)[par].0
        } by {
            let path = old_nodes[k].path_view();
            let npath = out[k].path_view();
            let par = npath.drop_last();
            if !is_prefix(from, path) {
                assert(npath == path);
                assert(path.len() > 1);
                let opar = path.drop_last();
                assert(old_m.contains_key(opar) && !old_m[opar].0);
                assert(!is_prefix(from, opar)) by {
                    if is_prefix(from, opar) {
                        assert forall|i: int| 0 <= i < from.len() implies from[i] == path[i] by {
                            assert(opar[i] == path[i]);
                        }
                        assert(is_prefix(from, path));
                    }
                }
                assert(!is_prefix(to, opar)) by {
                    if is_prefix(to, opar) {
                        lemma_map_of_contains(old_nodes, opar);
                        let k2 = choose|k2: int|
                            0 <= k2 < old_nodes.len() && (#[trigger] old_nodes[k2]).path_view()
                                == opar;
                        assert(!is_prefix(from, old_nodes[k2].path_view()));
                        assert(!is_prefix(to, old_nodes[k2].path_view()));
                    }
                }
                assert(par == opar);
                assert(new_m.contains_key(par) && !new_m[par].0);
            } else {
                let s = path.skip(from.len() as int);
                assert(npath == to + s);
                if s.len() == 0 {
                    assert(npath =~= to);
                    assert(to.len() > 1);
                    let tpar = to.drop_last();
                    assert(old_m.contains_key(tpar) && !old_m[tpar].0);
                    assert(!is_prefix(from, tpar)) by {
                        if is_prefix(from, tpar) {
                            assert forall|i: int| 0 <= i < from.len() implies from[i] == to[i] by {
                                assert(tpar[i] == to[i]);
                            }
                            assert(is_prefix(from, to));
                        }
                    }
                    assert(!is_prefix(to, tpar)) by {
                        assert(tpar.len() < to.len());
                    }
                    assert(par =~= tpar);
                    assert(new_m.contains_key(tpar) && !new_m[tpar].0);
                    assert(new_m.contains_key(par) && !new_m[par].0);
                } else {
                    let opar = path.drop_last();
                    assert(path.len() > 1) by {
                        assert(path.len() == from.len() + s.len());
                    }
                    assert(old_m.contains_key(opar) && !old_m[opar].0);
                    assert(is_prefix(from, opar)) by {
                        assert(opar.len() >= from.len());
                        assert forall|i: int| 0 <= i < from.len() implies from[i] == opar[i] by {
                            assert(opar[i] == path[i]);
                        }
                    }
                    assert(new_m.contains_key(to + opar.skip(from.len() as int)) && new_m[to
                        + opar.skip(from.len() as int)] == old_m[opar]);
                    assert(to + opar.skip(from.len() as int) =~= par) by {
                        assert(opar.skip(from.len() as int) =~= s.drop_last());
                        assert(par =~= to + s.drop_last());
                    }
                    assert(new_m.contains_key(par) && !new_m[par].0);
                }
            }
        }
    }
}

spec fn kept_without(nodes: Seq<RepoNode>, pv: Seq<Seq<char>>) -> Seq<RepoNode>
    decreases nodes.len(),
{
    if nodes.len() == 0 {
        Seq::empty()
    } else {
        let rest = kept_without(nodes.drop_last(), pv);
        if is_prefix(pv, nodes.last().path_view()) {
            rest
        } else {
            rest.push(nodes.last())
        }
    }
}

proof fn lemma_kept_without(nodes: Seq<RepoNode>, pv: Seq<Seq<char>>)
    requires
        nodes_ok(nodes),
        unique_paths(nodes),
    ensures
        nodes_ok(kept_without(nodes, pv)),
        unique_paths(kept_without(nodes, pv)),
        forall|q: Seq<Seq<char>>|
            #[trigger] map_of(kept_without(nodes, pv)).contains_key(q) <==> (map_of(
                nodes,
            ).contains_key(q) && !is_prefix(pv, q)),
        forall|q: Seq<Seq<char>>|
            #[trigger] map_of(kept_without(nodes, pv)).contains_key(q) ==> map_of(
                kept_without(nodes, pv),
            )[q] == map_of(nodes)[q],
    decreases nodes.len(),
{
    if nodes.len() > 0 {
        let rest = nodes.drop_last();
        assert(nodes_ok(rest)) by {
            assert forall|a: int| 0 <= a < rest.len() implies node_ok(#[trigger] rest[a]) by {
                assert(rest[a] == nodes[a]);
            }
        }
        assert(unique_paths(rest)) by {
            assert forall|a: int, b: int| 0 <= a < b < rest.len() implies (
            #[trigger] rest[a]).path_view() != (#[trigger] rest[b]).path_view() by {
                assert(nodes[a].path_view() != nodes[b].path_view());
            }
        }
        lemma_kept_without(rest, pv);
        let kr = kept_without(rest, pv);
        let last = nodes.last();
        lemma_map_of_contains(rest, last.path_view());
        assert(!map_of(rest).contains_key(last.path_view())) by {
            if exists|a: int|
                0 <= a < rest.len() && (#[trigger] rest[a]).path_view() == last.path_view() {
                let a = choose|a: int|
                    0 <= a < rest.len() && (#[trigger] rest[a]).path_view() == last.path_view();
                assert(nodes[a].path_view() == nodes[nodes.len() - 1].path_view());
                assert(false);
            }
        }
        if is_prefix(pv, last.path_view()) {
            assert(kept_without(nodes, pv) == kr);
            assert forall|q: Seq<Seq<char>>| #[trigger] map_of(kr).contains_key(q) implies (
            map_of(nodes).contains_key(q) && !is_prefix(pv, q)) by {
                assert(map_of(rest).contains_key(q) && !is_prefix(pv, q));
            }
            assert forall|q: Seq<Seq<char>>|
                map_of(nodes).contains_key(q) && !is_prefix(pv, q) implies #[trigger] map_of(
                kr,
            ).contains_key(q) by {
                assert(q != last.path_view());
                assert(map_of(rest).contains_key(q));
            }
            assert forall|q: Seq<Seq<char>>| #[trigger] map_of(kr).contains_key(q) implies map_of(
                kr,
            )[q] == map_of(nodes)[q] by {
                assert(q != last.path_view());
                assert(map_of(kr)[q] == map_of(rest)[q]);
            }
        } else {
            assert(kept_without(nodes, pv) == kr.push(last));
            let kn = kr.push(last);
            assert(map_of(kn) == map_of(kr).insert(last.path_view(), last.val())) by {
                assert(kn.drop_last() =~= kr);
                assert(kn.last() == last);
            }
            assert(nodes_ok(kn)) by {
                assert forall|a: int| 0 <= a < kn.len() implies node_ok(#[trigger] kn[a]) by {
                    if a < kr.len() {
                        assert(kn[a] == kr[a]);
                    } else {
                        assert(kn[a] == last);
                        assert(node_ok(nodes[nodes.len() - 1]));
                    }
                }
            }
            assert(unique_paths(kn)) by {
                assert forall|a: int, b: int| 0 <= a < b < kn.len() implies (
                #[trigger] kn[a]).path_view() != (#[trigger] kn[b]).path_view() by {
                    if b < kr.len() {
                        assert(kn[a] == kr[a] && kn[b] == kr[b]);
                    } else {
                        assert(kn[a] == kr[a] && kn[b] == last);
                        if kr[a].path_view() == last.path_view() {
                            lemma_map_of_index(kr, a);
                            assert(map_of(rest).contains_key(last.path_view()));
                            assert(false);
                        }
                    }
                }
            }
            assert forall|q: Seq<Seq<char>>| #[trigger] map_of(kn).contains_key(q) implies (
            map_of(nodes).contains_key(q) && !is_prefix(pv, q)) by {
                if q != last.path_view() {
                    assert(map_of(kr).contains_key(q));
                }
            }
            assert forall|q: Seq<Seq<char>>|
                map_of(nodes).contains_key(q) && !is_prefix(pv, q) implies #[trigger] map_of(
                kn,
            ).contains_key(q) by {
                if q != last.path_view() {
                    assert(map_of(rest).contains_key(q));
                }
            }
            assert forall|q: Seq<Seq<char>>| #[trigger] map_of(kn).contains_key(q) implies map_of(
                kn,
            )[q] == map_of(nodes)[q] by {
                if q != last.path_view() {
                    assert(map_of(kn)[q] == map_of(kr)[q]);
                    assert(map_of(kr)[q] == map_of(rest)[q]);
                }
            }
        }
    }
}

/// The repository tree.
pub struct Repo {
    nodes: Vec<RepoNode>,
}

impl Repo {
    /// The abstract contents.
    pub closed spec fn entries(self) -> RepoMap {
        map_of(self.nodes@)
    }

    pub open spec fn has(self, p: Seq<Seq<char>>) -> bool {
        self.entries().contains_key(p)
    }

    pub open spec fn file_at(self, p: Seq<Seq<char>>) -> bool {
        self.has(p) && self.entries()[p].0
    }

    /// The root (the empty path) is always a directory; any other path is a
    /// directory when it is present and not a file.
    pub open spec fn dir_at(self, p: Seq<Seq<char>>) -> bool {
        p.len() == 0 || (self.has(p) && !self.entries()[p].0)
    }

    pub open spec fn content_at(self, p: Seq<Seq<char>>) -> Seq<u8> {
        self.entries()[p].1
    }

    /// The tree invariant: every node has a non-empty, valid segment path,
    /// directories carry no content, paths are unique, and every node of
    /// depth two or more has its parent present as a directory.
    pub closed spec fn wf(self) -> bool {
        &&& nodes_ok(self.nodes@)
        &&& unique_paths(self.nodes@)
        &&& parents_ok(self.nodes@)
    }

    /// Every present path is non-empty and made of valid segments.
    pub proof fn lemma_wf_keys(self, p: Seq<Seq<char>>)
        requires
            self.wf(),
            self.has(p),
        ensures
            p.len() >= 1,
            valid_rel_path(p),
    {
        lemma_map_of_contains(self.nodes@, p);
        let i = choose|i: int|
            0 <= i < self.nodes@.len() && (#[trigger] self.nodes@[i]).path_view() == p;
        assert(node_ok(self.nodes@[i]));
    }

    /// Every proper, non-empty prefix of a present path is present and is a
    /// directory: the tree has no orphans.
    pub proof fn lemma_ancestors(self, q: Seq<Seq<char>>, k: int)
        requires
            self.wf(),
            self.has(q),
            1 <= k <= q.len(),
        ensures
            self.has(q.take(k)),
            k < q.len() ==> self.dir_at(q.take(k)),
    {
        lemma_ancestors_nodes(self.nodes@, q, k);
    }

    /// The empty repository.
    pub fn new() -> (r: Repo)
        ensures
            r.wf(),
            r.entries() == Map::<Seq<Seq<char>>, (bool, Seq<u8>)>::empty(),
    {
        let nodes: Vec<RepoNode> = Vec::new();
        Repo { nodes }
    }

    fn find_node(&self, p: &Vec<String>) -> (r: Option<usize>)
        ensures
            match r {
                Some(i) => i < self.nodes@.len() && self.nodes@[i as int].path_view()
                    == p.deep_view(),
                None => !self.has(p.deep_view()),
            },
    {
        proof {
            lemma_map_of_contains(self.nodes@, p.deep_view());
        }
        let mut i: usize = 0;
        while i < self.nodes.len()
            invariant
                0 <= i <= self.nodes@.len(),
                forall|j: int|
                    0 <= j < i ==> (#[trigger] self.nodes@[j]).path_view() != p.deep_view(),
                map_of(self.nodes@).contains_key(p.deep_view()) <==> exists|j: int|
                    0 <= j < self.nodes@.len() && (#[trigger] self.nodes@[j]).path_view()
                        == p.deep_view(),
            decreases self.nodes@.len() - i,
        {
            if path_eq(&self.nodes[i].path, p) {
                return Some(i);
            }
            i = i + 1;
        }
        None
    }

    fn push_node(&mut self, node: RepoNode)
        requires
            old(self).wf(),
            node_ok(node),
            !old(self).has(node.path_view()),
            node.path_view().len() == 1 || old(self).dir_at(node.path_view().drop_last()),
        ensures
            final(self).wf(),
            final(self).entries() == old(self).entries().insert(node.path_view(), node.val()),
    {
        let ghost oldn = self.nodes@;
        let ghost n = node;
        proof {
            lemma_map_of_contains(oldn, n.path_view());
        }
        self.nodes.push(node);
        proof {
            let newn = self.nodes@;
            assert(newn.drop_last() =~= oldn);
            assert(newn.last() == n);
            assert(map_of(newn) == map_of(oldn).insert(n.path_view(), n.val()));
            // uniqueness: the new path was absent
            assert forall|a: int, b: int| 0 <= a < b < newn.len() implies (
            #[trigger] newn[a]).path_view() != (#[trigger] newn[b]).path_view() by {
                if b == newn.len() - 1 {
                    assert(newn[a] == oldn[a]);
                } else {
                    assert(newn[a] == oldn[a] && newn[b] == oldn[b]);
                }
            }
            // every parent is still present as a directory
            assert forall|i: int|
                0 <= i < newn.len() && (#[trigger] newn[i]).path_view().len() > 1 implies {
                let par = newn[i].path_view().drop_last();
                map_of(newn).contains_key(par) && !map_of(newn)[par].0
            } by {
                let par = newn[i].path_view().drop_last();
                if i == newn.len() - 1 {
                    // the pushed node: its parent was a directory before
                    assert(par.len() < n.path_view().len());
                    assert(par != n.path_view());
                } else {
                    assert(newn[i] == oldn[i]);
                    assert(map_of(oldn).contains_key(par) && !map_of(oldn)[par].0);
                    // the parent cannot be the new path, which was absent
                    assert(par != n.path_view());
                }
            }
        }
    }

    fn remove_node_at(&mut self, i: usize)
        requires
            old(self).wf(),
            i < old(self).nodes@.len(),
            // no node may have the removed path as its parent
            forall|j: int|
                0 <= j < old(self).nodes@.len() && (#[trigger] old(self).nodes@[j]).path_view().len()
                    > 1 ==> old(self).nodes@[j].path_view().drop_last() != old(
                    self,
                ).nodes@[i as int].path_view(),
        ensures
            final(self).wf(),
            final(self).entries() == old(self).entries().remove(
                old(self).nodes@[i as int].path_view(),
            ),
    {
        let ghost oldn = self.nodes@;
        let ghost p = self.nodes@[i as int].path_view();
        self.nodes.remove(i);
        proof {
            let newn = self.nodes@;
            lemma_map_of_remove(oldn, i as int);
            assert(newn == oldn.remove(i as int));
            assert forall|k: int| 0 <= k < newn.len() implies #[trigger] newn[k] == (if k < i {
                oldn[k]
            } else {
                oldn[k + 1]
            }) by {
                assert(oldn.remove(i as int)[k] == if k < i {
                    oldn[k]
                } else {
                    oldn[k + 1]
                });
            }
            assert(nodes_ok(newn));
            assert forall|a: int, b: int| 0 <= a < b < newn.len() implies (
            #[trigger] newn[a]).path_view() != (#[trigger] newn[b]).path_view() by {
                let a0: int = if a < i {
                    a
                } else {
                    a + 1
                };
                let b0: int = if b < i {
                    b
                } else {
                    b + 1
                };
                assert(newn[a] == oldn[a0] && newn[b] == oldn[b0]);
            }
            assert forall|k: int|
                0 <= k < newn.len() && (#[trigger] newn[k]).path_view().len() > 1 implies {
                let par = newn[k].path_view().drop_last();
                map_of(newn).contains_key(par) && !map_of(newn)[par].0
            } by {
                let k0: int = if k < i {
                    k
                } else {
                    k + 1
                };
                assert(newn[k] == oldn[k0]);
                let par = oldn[k0].path_view().drop_last();
                assert(map_of(oldn).contains_key(par) && !map_of(oldn)[par].0);
                assert(par != p);
            }
        }
    }
    /// Lists the immediate children of the directory at `p`, each
    /// classified as file or directory; `p` itself is never an entry, no
    /// name repeats, and every child appears. A missing target, or a file
    /// target, is `NotFound`.
    #[verifier::rlimit(100)]
    #[verifier::spinoff_prover]
    pub fn list(&self, p: &Vec<String>) -> (r: Result<Vec<Entry>, OpError>)
        requires
            self.wf(),
        ensures
            match r {
                Ok(es) => self.dir_at(p.deep_view()) && listing_of(*self, p.deep_view(), es@),
                Err(e) => {
                    &&& e == OpError::NotFound
                    &&& p.deep_view().len() > 0
                    &&& !self.dir_at(p.deep_view())
                },
            },
    {
        let ghost pv = p.deep_view();
        if p.len() > 0 {
            match self.find_node(p) {
                None => {
                    return Err(OpError::NotFound);
                },
                Some(i) => {
                    proof {
                        lemma_map_of_index(self.nodes@, i as int);
                    }
                    if self.nodes[i].is_file {
                        return Err(OpError::NotFound);
                    }
                },
            }
        }
        let mut es: Vec<Entry> = Vec::new();
        let mut i: usize = 0;
        while i < self.nodes.len()
            invariant
                nodes_ok(self.nodes@),
                unique_paths(self.nodes@),
                self.dir_at(pv),
                pv == p.deep_view(),
                p@.len() == pv.len(),
                0 <= i <= self.nodes@.len(),
                listing_sound(self.nodes@, pv, es@, i as int),
                listing_complete(self.nodes@, pv, es@, i as int),
                names_unique(es@),
            decreases self.nodes@.len() - i,
        {
            proof {
                assert(node_ok(self.nodes@[i as int]));
            }
            let node = &self.nodes[i];
            let is_child = node.path.len() - 1 == p.len() && path_is_prefix(p, &node.path);
            if is_child {
                let name_ref = &node.path[p.len()];
                let entry = Entry { name: name_ref.clone(), is_file: node.is_file };
                let ghost before = es@;
                es.push(entry);
                proof {
                    assert(node.path.deep_view()[p@.len() as int] == node.path@[p@.len() as int]@);
                    assert(es@.last().name@ == self.nodes@[i as int].path_view().last());
                    assert(forall|j: int| 0 <= j < before.len() ==> #[trigger] es@[j] == before[j]);
                    lemma_list_push(self.nodes@, pv, before, es@, i as int);
                }
            } else {
                proof {
                    lemma_list_skip(self.nodes@, pv, es@, i as int);
                }
            }
            i = i + 1;
        }
        proof {
            lemma_list_final(self.nodes@, pv, es@);
            assert(listing_of(*self, p.deep_view(), es@)) by {
                assert(forall|j: int|
                    0 <= j < es@.len() ==> self.has(p.deep_view().push((#[trigger] es@[j]).name@))
                        && self.entries()[p.deep_view().push(es@[j].name@)].0 == es@[j].is_file);
                assert(forall|q: Seq<Seq<char>>|
                    #[trigger] self.has(q) && q.len() == p.deep_view().len() + 1 && is_prefix(
                        p.deep_view(),
                        q,
                    ) ==> exists|j: int| 0 <= j < es@.len() && (#[trigger] es@[j]).name@
                        == q.last());
                assert(forall|j1: int, j2: int|
                    0 <= j1 < j2 < es@.len() ==> (#[trigger] es@[j1]).name@ != (
                    #[trigger] es@[j2]).name@);
            }
        }
        Ok(es)
    }

    /// Creates the directory at `p` together with every missing ancestor;
    /// whatever already exists is left exactly as it is, so repeating the
    /// call is safe. A file standing where a directory is needed is an I/O
    /// failure, and nothing changes.
    #[verifier::rlimit(50)]
    #[verifier::spinoff_prover]
    pub fn create_dir_all(&mut self, p: &Vec<String>) -> (r: Result<(), OpError>)
        requires
            old(self).wf(),
            valid_rel_path(p.deep_view()),
        ensures
            final(self).wf(),
            match r {
                Ok(()) => {
                    &&& forall|k: int|
                        1 <= k <= p.deep_view().len() ==> final(self).dir_at(
                            #[trigger] p.deep_view().take(k),
                        )
                    &&& forall|q: Seq<Seq<char>>|
                        #[trigger] old(self).has(q) ==> final(self).has(q) && final(self).entries()[q] == old(self).entries()[q]
                    &&& forall|q: Seq<Seq<char>>|
                        #[trigger] final(self).has(q) ==> old(self).has(q) || exists|k: int|
                            1 <= k <= p.deep_view().len() && q == p.deep_view().take(k)
                    &&& forall|q: Seq<Seq<char>>|
                        #[trigger] final(self).has(q) && !old(self).has(q) ==> final(self).entries()[q] == (false, Seq::<u8>::empty())
                    &&& forall|k: int|
                        1 <= k <= p.deep_view().len() ==> !old(self).file_at(
                            #[trigger] p.deep_view().take(k),
                        )
                },
                Err(e) => {
                    &&& e == OpError::IoError
                    &&& *final(self) == *old(self)
                    &&& exists|k: int|
                        1 <= k <= p.deep_view().len() && old(self).file_at(
                            #[trigger] p.deep_view().take(k),
                        )
                },
            },
    {
        let ghost pv = p.deep_view();
        // first pass: refuse if a file stands anywhere on the way
        let mut pref: Vec<String> = Vec::new();
        let mut k: usize = 0;
        proof {
            assert(pref.deep_view() =~= pv.take(0));
        }
        while k < p.len()
            invariant
                *self == *old(self),
                self.wf(),
                pv == p.deep_view(),
                p@.len() == pv.len(),
                0 <= k <= p@.len(),
                pref.deep_view() == pv.take(k as int),
                pref@.len() == k,
                forall|j: int| 1 <= j <= k ==> !self.file_at(#[trigger] pv.take(j)),
            decreases p@.len() - k,
        {
            let s = p[k].clone();
            pref.push(s);
            proof {
                assert(pref.deep_view() =~= pv.take(k as int + 1));
            }
            match self.find_node(&pref) {
                Some(i) => {
                    proof {
                        lemma_map_of_index(self.nodes@, i as int);
                    }
                    if self.nodes[i].is_file {
                        proof {
                            assert(self.file_at(pv.take(k as int + 1)));
                        }
                        return Err(OpError::IoError);
                    }
                },
                None => {},
            }
            k = k + 1;
        }
        // second pass: create what is missing, shallowest first
        let ghost orig = *self;
        let mut pref2: Vec<String> = Vec::new();
        let mut k2: usize = 0;
        proof {
            assert(pref2.deep_view() =~= pv.take(0));
        }
        while k2 < p.len()
            invariant
                orig == *old(self),
                self.wf(),
                valid_rel_path(pv),
                pv == p.deep_view(),
                p@.len() == pv.len(),
                0 <= k2 <= p@.len(),
                pref2.deep_view() == pv.take(k2 as int),
                pref2@.len() == k2,
                forall|j: int| 1 <= j <= pv.len() ==> !orig.file_at(#[trigger] pv.take(j)),
                forall|j: int| 1 <= j <= k2 ==> self.dir_at(#[trigger] pv.take(j)),
                forall|q: Seq<Seq<char>>|
                    #[trigger] orig.has(q) ==> self.has(q) && self.entries()[q]
                        == orig.entries()[q],
                forall|q: Seq<Seq<char>>|
                    #[trigger] self.has(q) ==> orig.has(q) || exists|j: int|
                        1 <= j <= k2 && q == pv.take(j),
                forall|q: Seq<Seq<char>>|
                    #[trigger] self.has(q) && !orig.has(q) ==> self.entries()[q] == (
                    false,
                    Seq::<u8>::empty(),
                ),
            decreases p@.len() - k2,
        {
            let s = p[k2].clone();
            pref2.push(s);
            let ghost key = pv.take(k2 as int + 1);
            proof {
                assert(pref2.deep_view() =~= key);
            }
            match self.find_node(&pref2) {
                Some(i) => {
                    proof {
                        lemma_map_of_index(self.nodes@, i as int);
                        assert(self.has(key));
                        if orig.has(key) {
                            assert(self.entries()[key] == orig.entries()[key]);
                            assert(!orig.file_at(key));
                        } else {
                            assert(self.entries()[key] == (false, Seq::<u8>::empty()));
                        }
                        assert(self.dir_at(key));
                    }
                },
                None => {
                    let node = RepoNode {
                        path: clone_path(&pref2),
                        is_file: false,
                        content: Vec::new(),
                    };
                    let ghost prev = *self;
                    proof {
                        assert(node.path_view() == key);
                        assert forall|i: int| 0 <= i < key.len() implies valid_seg(
                            #[trigger] key[i],
                        ) by {
                            assert(key[i] == pv[i]);
                        }
                        assert(node_ok(node));
                        if k2 > 0 {
                            assert(key.drop_last() =~= pv.take(k2 as int));
                            assert(self.dir_at(key.drop_last()));
                        } else {
                            assert(key.drop_last() =~= Seq::<Seq<char>>::empty());
                        }
                    }
                    self.push_node(node);
                    proof {
                        assert(self.entries() == prev.entries().insert(
                            key,
                            (false, Seq::<u8>::empty()),
                        ));
                        assert forall|q: Seq<Seq<char>>| #[trigger] orig.has(q) implies self.has(
                            q,
                        ) && self.entries()[q] == orig.entries()[q] by {
                            assert(prev.has(q));
                            assert(q != key);
                        }
                        assert forall|q: Seq<Seq<char>>| #[trigger] self.has(q) implies orig.has(q)
                            || exists|j: int| 1 <= j <= k2 + 1 && q == pv.take(j) by {
                            if q == key {
                                assert(1 <= k2 + 1 <= k2 + 1 && q == pv.take(k2 as int + 1));
                            } else {
                                assert(prev.has(q));
                                if !orig.has(q) {
                                    let j = choose|j: int| 1 <= j <= k2 && q == pv.take(j);
                                    assert(1 <= j <= k2 + 1 && q == pv.take(j));
                                }
                            }
                        }
                        assert forall|j: int| 1 <= j <= k2 + 1 implies self.dir_at(
                            #[trigger] pv.take(j),
                        ) by {
                            if j <= k2 {
                                assert(prev.dir_at(pv.take(j)));
                                assert(pv.take(j).len() == j);
                                assert(pv.take(j) != key);
                            }
                        }
                    }
                },
            }
            k2 = k2 + 1;
        }
        Ok(())
    }

    /// Writes `bytes` verbatim to the file at `p`, replacing any existing
    /// file there. The parent must already exist as a directory; writing
    /// over a directory, or under a missing parent, is an I/O failure and
    /// changes nothing.
    pub fn upload(&mut self, p: &Vec<String>, bytes: Vec<u8>) -> (r: Result<(), OpError>)
        requires
            old(self).wf(),
            valid_rel_path(p.deep_view()),
            p.deep_view().len() >= 1,
        ensures
            final(self).wf(),
            match r {
                Ok(()) => {
                    &&& old(self).dir_at(p.deep_view().drop_last())
                    &&& !old(self).dir_at(p.deep_view())
                    &&& final(self).entries() == old(self).entries().insert(
                        p.deep_view(),
                        (true, bytes@),
                    )
                },
                Err(e) => {
                    &&& e == OpError::IoError
                    &&& (!old(self).dir_at(p.deep_view().drop_last()) || old(self).dir_at(
                        p.deep_view(),
                    ))
                    &&& *final(self) == *old(self)
                },
            },
    {
        let parent_is_dir = if p.len() == 1 {
            proof {
                assert(p.deep_view().drop_last() =~= Seq::<Seq<char>>::empty());
            }
            true
        } else {
            let par = parent_of(p);
            match self.find_node(&par) {
                Some(i) => {
                    proof {
                        lemma_map_of_index(self.nodes@, i as int);
                    }
                    !self.nodes[i].is_file
                },
                None => false,
            }
        };
        if !parent_is_dir {
            return Err(OpError::IoError);
        }
        match self.find_node(p) {
            Some(i) => {
                proof {
                    lemma_map_of_index(self.nodes@, i as int);
                }
                if !self.nodes[i].is_file {
                    return Err(OpError::IoError);
                }
                let ghost mid = self.entries();
                let ghost pv = p.deep_view();
                proof {
                    // no node can have the file `p` as its parent
                    assert forall|j: int|
                        0 <= j < self.nodes@.len() && (
                        #[trigger] self.nodes@[j]).path_view().len() > 1 implies self.nodes@[j].path_view().drop_last()
                        != self.nodes@[i as int].path_view() by {
                        let par = self.nodes@[j].path_view().drop_last();
                        if par == pv {
                            assert(!map_of(self.nodes@)[par].0);
                        }
                    }
                }
                self.remove_node_at(i);
                let node = RepoNode { path: clone_path(p), is_file: true, content: bytes };
                proof {
                    lemma_map_of_contains(self.nodes@, pv);
                    if exists|j: int|
                        0 <= j < self.nodes@.len() && (#[trigger] self.nodes@[j]).path_view()
                            == pv {
                        let j = choose|j: int|
                            0 <= j < self.nodes@.len() && (#[trigger] self.nodes@[j]).path_view()
                                == pv;
                        lemma_map_of_index(self.nodes@, j);
                        assert(false);
                    }
                    if pv.len() > 1 {
                        assert(old(self).entries().remove(pv).contains_key(pv.drop_last()));
                    }
                }
                self.push_node(node);
                proof {
                    assert(final(self).entries() =~= old(self).entries().insert(
                        pv,
                        (true, bytes@),
                    ));
                }
                Ok(())
            },
            None => {
                let node = RepoNode { path: clone_path(p), is_file: true, content: bytes };
                proof {
                    if p.deep_view().len() > 1 {
                        assert(old(self).dir_at(p.deep_view().drop_last()));
                    }
                }
                self.push_node(node);
                Ok(())
            },
        }
    }

    /// Removes the directory at `p` and everything beneath it. A missing
    /// target is `NotFound` and mutates nothing; a file target is an I/O
    /// failure and mutates nothing.
    pub fn delete_dir(&mut self, p: &Vec<String>) -> (r: Result<(), OpError>)
        requires
            old(self).wf(),
            valid_rel_path(p.deep_view()),
            p.deep_view().len() >= 1,
        ensures
            final(self).wf(),
            match r {
                Ok(()) => {
                    &&& old(self).dir_at(p.deep_view())
                    &&& forall|q: Seq<Seq<char>>|
                        #[trigger] old(self).has(q) && !is_prefix(p.deep_view(), q) ==> final(self).has(q) && final(self).entries()[q] == old(self).entries()[q]
                    &&& forall|q: Seq<Seq<char>>|
                        #[trigger] final(self).has(q) ==> old(self).has(q) && !is_prefix(
                            p.deep_view(),
                            q,
                        )
                },
                Err(e) => {
                    &&& *final(self) == *old(self)
                    &&& (e == OpError::NotFound || e == OpError::IoError)
                    &&& (e == OpError::NotFound <==> !old(self).has(p.deep_view()))
                    &&& (e == OpError::IoError <==> old(self).file_at(p.deep_view()))
                },
            },
    {
        let ghost pv = p.deep_view();
        match self.find_node(p) {
            None => {
                return Err(OpError::NotFound);
            },
            Some(i) => {
                proof {
                    lemma_map_of_index(self.nodes@, i as int);
                }
                if self.nodes[i].is_file {
                    return Err(OpError::IoError);
                }
            },
        }
        let ghost oldn = self.nodes@;
        let mut i: usize = 0;
        let ghost j: int = 0;
        proof {
            assert(oldn.take(0) =~= Seq::<RepoNode>::empty());
            assert(oldn.skip(0) =~= oldn);
            assert(kept_without(oldn.take(0), pv) + oldn.skip(0) =~= oldn);
        }
        while i < self.nodes.len()
            invariant
                pv == p.deep_view(),
                0 <= j <= oldn.len(),
                i == kept_without(oldn.take(j), pv).len(),
                self.nodes@ == kept_without(oldn.take(j), pv) + oldn.skip(j),
                i <= self.nodes@.len(),
            decreases oldn.len() - j,
        {
            let ghost kept = kept_without(oldn.take(j), pv);
            let ghost stepped = oldn.take(j + 1);
            proof {
                assert(self.nodes@.len() == kept.len() + oldn.len() - j);
                assert(j < oldn.len());
                assert(stepped.drop_last() =~= oldn.take(j));
                assert(stepped.last() == oldn[j]);
                assert(self.nodes@[i as int] == oldn[j]);
            }
            let keep = !path_is_prefix(p, &self.nodes[i].path);
            if keep {
                proof {
                    assert(kept_without(stepped, pv) == kept.push(oldn[j]));
                    assert(self.nodes@ =~= kept_without(stepped, pv) + oldn.skip(j + 1)) by {
                        assert(oldn.skip(j) =~= seq![oldn[j]] + oldn.skip(j + 1));
                    }
                }
                i = i + 1;
            } else {
                let ghost before = self.nodes@;
                self.nodes.remove(i);
                proof {
                    assert(kept_without(stepped, pv) == kept);
                    assert(self.nodes@ =~= kept_without(stepped, pv) + oldn.skip(j + 1)) by {
                        assert(before.remove(i as int) =~= kept + oldn.skip(j + 1)) by {
                            assert(oldn.skip(j) =~= seq![oldn[j]] + oldn.skip(j + 1));
                        }
                    }
                }
            }
            proof {
                j = j + 1;
            }
        }
        proof {
            assert(j == oldn.len());
            assert(oldn.take(j) =~= oldn);
            assert(oldn.skip(j) =~= Seq::<RepoNode>::empty());
            assert(self.nodes@ =~= kept_without(oldn, pv));
            lemma_kept_without(oldn, pv);
            // the invariant also survives: kept parents are never under `p`
            assert forall|k: int|
                0 <= k < self.nodes@.len() && (#[trigger] self.nodes@[k]).path_view().len()
                    > 1 implies {
                let par = self.nodes@[k].path_view().drop_last();
                map_of(self.nodes@).contains_key(par) && !map_of(self.nodes@)[par].0
            } by {
                let path = self.nodes@[k].path_view();
                let par = path.drop_last();
                lemma_map_of_index(self.nodes@, k);
                assert(map_of(self.nodes@).contains_key(path));
                assert(map_of(oldn).contains_key(path) && !is_prefix(pv, path));
                lemma_map_of_contains(oldn, path);
                let k0 = choose|k0: int|
                    0 <= k0 < oldn.len() && (#[trigger] oldn[k0]).path_view() == path;
                assert(map_of(oldn).contains_key(par) && !map_of(oldn)[par].0);
                assert(!is_prefix(pv, par)) by {
                    if is_prefix(pv, par) {
                        assert forall|x: int| 0 <= x < pv.len() implies pv[x] == path[x] by {
                            assert(par[x] == path[x]);
                        }
                        assert(is_prefix(pv, path));
                    }
                }
                assert(map_of(self.nodes@).contains_key(par) && map_of(self.nodes@)[par]
                    == map_of(oldn)[par]);
            }
        }
        Ok(())
    }

    fn relocate_subtree(&mut self, from: &Vec<String>, to: &Vec<String>)
        requires
            old(self).wf(),
            from.deep_view().len() >= 1,
            to.deep_view().len() >= 1,
            valid_rel_path(to.deep_view()),
            old(self).has(from.deep_view()),
            !old(self).has(to.deep_view()),
            !is_prefix(from.deep_view(), to.deep_view()),
            to.deep_view().len() == 1 || old(self).dir_at(to.deep_view().drop_last()),
        ensures
            final(self).wf(),
            relocated_maps(
                old(self).entries(),
                final(self).entries(),
                from.deep_view(),
                to.deep_view(),
            ),
    {
        let ghost fromv = from.deep_view();
        let ghost tov = to.deep_view();
        let ghost oldn = self.nodes@;
        let mut out: Vec<RepoNode> = Vec::new();
        let mut j: usize = 0;
        while j < self.nodes.len()
            invariant
                self.wf(),
                self.nodes@ == oldn,
                fromv == from.deep_view(),
                tov == to.deep_view(),
                from@.len() == fromv.len(),
                0 <= j <= oldn.len(),
                out@.len() == j,
                forall|k: int|
                    0 <= k < j ==> (#[trigger] out@[k]).path_view() == seg_rewrite(
                        oldn[k].path_view(),
                        fromv,
                        tov,
                    ) && out@[k].is_file == oldn[k].is_file && out@[k].content@
                        == oldn[k].content@,
            decreases oldn.len() - j,
        {
            proof {
                assert(node_ok(self.nodes@[j as int]));
            }
            let node = &self.nodes[j];
            if path_is_prefix(from, &node.path) {
                let mut npath = clone_path(to);
                let mut j2: usize = from.len();
                proof {
                    assert(node.path.deep_view().subrange(fromv.len() as int, fromv.len() as int)
                        =~= Seq::<Seq<char>>::empty());
                    assert(npath.deep_view() =~= tov + node.path.deep_view().subrange(
                        fromv.len() as int,
                        fromv.len() as int,
                    ));
                }
                while j2 < node.path.len()
                    invariant
                        fromv.len() <= j2 <= node.path@.len(),
                        node.path@.len() == node.path.deep_view().len(),
                        npath.deep_view() == tov + node.path.deep_view().subrange(
                            fromv.len() as int,
                            j2 as int,
                        ),
                    decreases node.path@.len() - j2,
                {
                    let s = node.path[j2].clone();
                    let ghost before_dv = npath.deep_view();
                    npath.push(s);
                    proof {
                        assert(node.path.deep_view()[j2 as int] == node.path@[j2 as int]@);
                        assert(npath.deep_view() =~= before_dv.push(
                            node.path.deep_view()[j2 as int],
                        ));
                        assert(node.path.deep_view().subrange(fromv.len() as int, j2 as int + 1)
                            =~= node.path.deep_view().subrange(fromv.len() as int, j2 as int).push(
                            node.path.deep_view()[j2 as int],
                        ));
                        assert(npath.deep_view() =~= tov + node.path.deep_view().subrange(
                            fromv.len() as int,
                            j2 as int + 1,
                        ));
                    }
                    j2 = j2 + 1;
                }
                proof {
                    assert(node.path.deep_view().subrange(
                        fromv.len() as int,
                        node.path.deep_view().len() as int,
                    ) =~= node.path.deep_view().skip(fromv.len() as int));
                }
                let content = clone_bytes(&node.content);
                let is_file = node.is_file;
                let nnode = RepoNode { path: npath, is_file, content };
                out.push(nnode);
                proof {
                    assert(out@[j as int].path_view() == seg_rewrite(
                        oldn[j as int].path_view(),
                        fromv,
                        tov,
                    ));
                }
            } else {
                let npath = clone_path(&node.path);
                let content = clone_bytes(&node.content);
                let is_file = node.is_file;
                let nnode = RepoNode { path: npath, is_file, content };
                out.push(nnode);
                proof {
                    assert(out@[j as int].path_view() == seg_rewrite(
                        oldn[j as int].path_view(),
                        fromv,
                        tov,
                    ));
                }
            }
            j = j + 1;
        }
        proof {
            lemma_relocate(oldn, out@, fromv, tov);
        }
        self.nodes = out;
    }

    /// Renames the entry at `p` to the bare name `new_name`, in place in
    /// its parent directory. A missing target is `NotFound`; an entry
    /// already carrying the new name is an I/O failure; renaming to the
    /// name the entry already has is accepted and changes nothing. Nothing
    /// changes on any failure.
    pub fn rename_entry(&mut self, p: &Vec<String>, new_name: &String) -> (r: Result<
        (),
        OpError,
    >)
        requires
            old(self).wf(),
            valid_rel_path(p.deep_view()),
            p.deep_view().len() >= 1,
            valid_seg(new_name@),
        ensures
            final(self).wf(),
            match r {
                Ok(()) => old(self).has(p.deep_view()) && {
                    let to = p.deep_view().drop_last().push(new_name@);
                    if to == p.deep_view() {
                        *final(self) == *old(self)
                    } else {
                        !old(self).has(to) && relocated_maps(
                            old(self).entries(),
                            final(self).entries(),
                            p.deep_view(),
                            to,
                        )
                    }
                },
                Err(e) => *final(self) == *old(self) && {
                    let to = p.deep_view().drop_last().push(new_name@);
                    ||| (e == OpError::NotFound && !old(self).has(p.deep_view()))
                    ||| (e == OpError::IoError && old(self).has(p.deep_view()) && to
                        != p.deep_view() && old(self).has(to))
                },
            },
    {
        let ghost pv = p.deep_view();
        match self.find_node(p) {
            None => {
                return Err(OpError::NotFound);
            },
            Some(i) => {
                proof {
                    lemma_map_of_index(self.nodes@, i as int);
                }
            },
        }
        let mut to = parent_of(p);
        to.push(new_name.clone());
        let ghost tov = to.deep_view();
        proof {
            assert(tov =~= pv.drop_last().push(new_name@));
        }
        if path_eq(&to, p) {
            return Ok(());
        }
        match self.find_node(&to) {
            Some(i) => {
                proof {
                    lemma_map_of_index(self.nodes@, i as int);
                }
                return Err(OpError::IoError);
            },
            None => {},
        }
        proof {
            assert(tov.len() == pv.len());
            assert(!is_prefix(pv, tov)) by {
                if is_prefix(pv, tov) {
                    assert(pv =~= tov);
                }
            }
            assert forall|i: int| 0 <= i < tov.len() implies valid_seg(#[trigger] tov[i]) by {
                if i < tov.len() - 1 {
                    assert(tov[i] == pv[i]);
                }
            }
            if pv.len() > 1 {
                self.lemma_ancestors(pv, pv.len() as int - 1);
                assert(pv.take(pv.len() as int - 1) =~= tov.drop_last());
            }
        }
        self.relocate_subtree(p, &to);
        Ok(())
    }

    /// Moves the entry at `p` into the directory `dest` (the empty path
    /// names the root), keeping its final name. A missing target, or a
    /// missing destination directory, is `NotFound`; moving an entry onto
    /// an existing entry, or into its own subtree, is an I/O failure;
    /// moving it to where it already stands is accepted and changes
    /// nothing. Nothing changes on any failure.
    pub fn move_entry(&mut self, p: &Vec<String>, dest: &Vec<String>) -> (r: Result<(), OpError>)
        requires
            old(self).wf(),
            valid_rel_path(p.deep_view()),
            p.deep_view().len() >= 1,
            valid_rel_path(dest.deep_view()),
        ensures
            final(self).wf(),
            match r {
                Ok(()) => old(self).has(p.deep_view()) && old(self).dir_at(dest.deep_view()) && {
                    let to = dest.deep_view().push(p.deep_view().last());
                    if to == p.deep_view() {
                        *final(self) == *old(self)
                    } else {
                        !old(self).has(to) && !is_prefix(p.deep_view(), dest.deep_view())
                            && relocated_maps(
                            old(self).entries(),
                            final(self).entries(),
                            p.deep_view(),
                            to,
                        )
                    }
                },
                Err(e) => *final(self) == *old(self) && {
                    let to = dest.deep_view().push(p.deep_view().last());
                    ||| (e == OpError::NotFound && (!old(self).has(p.deep_view()) || !old(
                        self,
                    ).dir_at(dest.deep_view())))
                    ||| (e == OpError::IoError && old(self).has(p.deep_view()) && old(self).dir_at(
                        dest.deep_view(),
                    ) && to != p.deep_view() && (old(self).has(to) || is_prefix(
                        p.deep_view(),
                        dest.deep_view(),
                    )))
                },
            },
    {
        let ghost pv = p.deep_view();
        let ghost dv = dest.deep_view();
        match self.find_node(p) {
            None => {
                return Err(OpError::NotFound);
            },
            Some(i) => {
                proof {
                    lemma_map_of_index(self.nodes@, i as int);
                }
            },
        }
        if dest.len() > 0 {
            match self.find_node(dest) {
                None => {
                    return Err(OpError::NotFound);
                },
                Some(i) => {
                    proof {
                        lemma_map_of_index(self.nodes@, i as int);
                    }
                    if self.nodes[i].is_file {
                        return Err(OpError::NotFound);
                    }
                },
            }
        }
        let mut to = clone_path(dest);
        let last = p[p.len() - 1].clone();
        to.push(last);
        let ghost tov = to.deep_view();
        proof {
            assert(p.deep_view()[p@.len() - 1] == p@[p@.len() - 1]@);
            assert(tov =~= dv.push(pv.last()));
        }
        if path_eq(&to, p) {
            return Ok(());
        }
        if path_is_prefix(p, dest) {
            return Err(OpError::IoError);
        }
        match self.find_node(&to) {
            Some(i) => {
                proof {
                    lemma_map_of_index(self.nodes@, i as int);
                }
                return Err(OpError::IoError);
            },
            None => {},
        }
        proof {
            assert(tov.len() == dv.len() + 1);
            assert(!is_prefix(pv, tov)) by {
                if is_prefix(pv, tov) {
                    if pv.len() <= dv.len() {
                        assert forall|i: int| 0 <= i < pv.len() implies pv[i] == dv[i] by {
                            assert(tov[i] == dv[i]);
                        }
                        assert(is_prefix(pv, dv));
                        assert(false);
                    } else {
                        assert(pv.len() == tov.len());
                        assert(pv =~= tov);
                        assert(false);
                    }
                }
            }
            assert forall|i: int| 0 <= i < tov.len() implies valid_seg(#[trigger] tov[i]) by {
                if i < dv.len() {
                    assert(tov[i] == dv[i]);
                } else {
                    assert(tov[i] == pv.last());
                }
            }
            assert(tov.drop_last() =~= dv);
        }
        self.relocate_subtree(p, &to);
        Ok(())
    }

    /// Removes the file at `p`. A missing target is `NotFound` and mutates
    /// nothing; a directory target is an I/O failure and mutates nothing.
    pub fn delete_file(&mut self, p: &Vec<String>) -> (r: Result<(), OpError>)
        requires
            old(self).wf(),
            valid_rel_path(p.deep_view()),
            p.deep_view().len() >= 1,
        ensures
            final(self).wf(),
            match r {
                Ok(()) => {
                    &&& old(self).file_at(p.deep_view())
                    &&& final(self).entries() == old(self).entries().remove(p.deep_view())
                },
                Err(e) => {
                    &&& *final(self) == *old(self)
                    &&& (e == OpError::NotFound || e == OpError::IoError)
                    &&& (e == OpError::NotFound <==> !old(self).has(p.deep_view()))
                    &&& (e == OpError::IoError <==> old(self).dir_at(p.deep_view()))
                },
            },
    {
        match self.find_node(p) {
            None => Err(OpError::NotFound),
            Some(i) => {
                proof {
                    lemma_map_of_index(self.nodes@, i as int);
                }
                if !self.nodes[i].is_file {
                    return Err(OpError::IoError);
                }
                let ghost pv = p.deep_view();
                proof {
                    assert forall|j: int|
                        0 <= j < self.nodes@.len() && (
                        #[trigger] self.nodes@[j]).path_view().len() > 1 implies self.nodes@[j].path_view().drop_last()
                        != self.nodes@[i as int].path_view() by {
                        let par = self.nodes@[j].path_view().drop_last();
                        if par == pv {
                            assert(!map_of(self.nodes@)[par].0);
                        }
                    }
                }
                self.remove_node_at(i);
                Ok(())
            },
        }
    }
}

proof fn lemma_map_of_remove(nodes: Seq<RepoNode>, i: int)
    requires
        unique_paths(nodes),
        0 <= i < nodes.len(),
    ensures
        map_of(nodes.remove(i)) == map_of(nodes).remove(nodes[i].path_view()),
    decreases nodes.len(),
{
    let p = nodes[i].path_view();
    if i == nodes.len() - 1 {
        assert(nodes.remove(i) =~= nodes.drop_last());
        lemma_map_of_contains(nodes.drop_last(), p);
        assert(!map_of(nodes.drop_last()).contains_key(p)) by {
            if exists|j: int|
                0 <= j < nodes.drop_last().len() && (#[trigger] nodes.drop_last()[j]).path_view()
                    == p {
                let j = choose|j: int|
                    0 <= j < nodes.drop_last().len() && (
                    #[trigger] nodes.drop_last()[j]).path_view() == p;
                assert(nodes[j].path_view() == nodes[i].path_view());
                assert(false);
            }
        }
        assert(map_of(nodes.remove(i)) =~= map_of(nodes.drop_last()).insert(
            p,
            nodes.last().val(),
        ).remove(p));
    } else {
        let rest = nodes.drop_last();
        assert(unique_paths(rest)) by {
            assert forall|a: int, b: int| 0 <= a < b < rest.len() implies (
            #[trigger] rest[a]).path_view() != (#[trigger] rest[b]).path_view() by {
                assert(nodes[a].path_view() != nodes[b].path_view());
            }
        }
        assert(rest[i] == nodes[i]);
        lemma_map_of_remove(rest, i);
        assert(nodes.remove(i).drop_last() =~= rest.remove(i));
        assert(nodes.remove(i).last() == nodes.last());
        assert(nodes.remove(i).len() == nodes.len() - 1 >= 1);
        assert(map_of(nodes.remove(i)) == map_of(rest.remove(i)).insert(
            nodes.last().path_view(),
            nodes.last().val(),
        ));
        assert(nodes.last().path_view() != p);
        assert(map_of(rest).remove(p).insert(nodes.last().path_view(), nodes.last().val())
            =~= map_of(rest).insert(nodes.last().path_view(), nodes.last().val()).remove(p));
    }
}

/// Whether `p` is an initial run of `q`, by value.
fn path_is_prefix(p: &Vec<String>, q: &Vec<String>) -> (r: bool)
    ensures
        r == is_prefix(p.deep_view(), q.deep_view()),
{
    if p.len() > q.len() {
        proof {
            assert(p.deep_view().len() == p@.len());
            assert(q.deep_view().len() == q@.len());
        }
        return false;
    }
    let mut i: usize = 0;
    while i < p.len()
        invariant
            p@.len() <= q@.len(),
            0 <= i <= p@.len(),
            forall|j: int| 0 <= j < i ==> p.deep_view()[j] == q.deep_view()[j],
        decreases p@.len() - i,
    {
        if !string_eq(&p[i], &q[i]) {
            proof {
                assert(p.deep_view()[i as int] == p@[i as int]@);
                assert(q.deep_view()[i as int] == q@[i as int]@);
            }
            return false;
        }
        i = i + 1;
    }
    true
}

/// A by-value copy of a segment path.
fn clone_path(p: &Vec<String>) -> (r: Vec<String>)
    ensures
        r.deep_view() == p.deep_view(),
        r@.len() == p@.len(),
{
    let mut r: Vec<String> = Vec::new();
    let mut i: usize = 0;
    while i < p.len()
        invariant
            0 <= i <= p@.len(),
            r@.len() == i,
            forall|j: int| 0 <= j < i ==> r.deep_view()[j] == p.deep_view()[j],
        decreases p@.len() - i,
    {
        let s = p[i].clone();
        r.push(s);
        i = i + 1;
    }
    proof {
        assert(r.deep_view() =~= p.deep_view());
    }
    r
}

/// A by-value copy of a byte vector.
fn clone_bytes(v: &Vec<u8>) -> (r: Vec<u8>)
    ensures
        r@ == v@,
{
    let mut r: Vec<u8> = Vec::new();
    let mut i: usize = 0;
    while i < v.len()
        invariant
            0 <= i <= v@.len(),
            r@ == v@.take(i as int),
        decreases v@.len() - i,
    {
        r.push(v[i]);
        proof {
            assert(r@ =~= v@.take(i as int + 1));
        }
        i = i + 1;
    }
    proof {
        assert(v@.take(v@.len() as int) =~= v@);
    }
    r
}

/// The path one segment above `p`.
fn parent_of(p: &Vec<String>) -> (r: Vec<String>)
    requires
        p@.len() >= 1,
    ensures
        r.deep_view() == p.deep_view().drop_last(),
{
    let mut r = clone_path(p);
    let ghost before = r.deep_view();
    r.pop();
    proof {
        assert(r.deep_view() =~= before.drop_last());
    }
    r
}

/// Directory creation is idempotent: after one success, every prefix of
/// `p` stands as a directory, so none is a file, and an immediately
/// repeated creation of `p` cannot fail.
pub proof fn lemma_create_dir_idempotent(repo: Repo, p: Seq<Seq<char>>)
    requires
        forall|k: int| 1 <= k <= p.len() ==> repo.dir_at(#[trigger] p.take(k)),
    ensures
        !(exists|k: int| 1 <= k <= p.len() && repo.file_at(#[trigger] p.take(k))),
{
}

/// After a successful rename of `p` to the bare name `n`, a listing of
/// `p`'s parent shows an entry named `n` and none with `p`'s old name.
pub proof fn lemma_rename_then_list(
    old_repo: Repo,
    new_repo: Repo,
    p: Seq<Seq<char>>,
    n: Seq<char>,
    es: Seq<Entry>,
)
    requires
        p.len() >= 1,
        old_repo.has(p),
        n != p.last(),
        relocated_maps(old_repo.entries(), new_repo.entries(), p, p.drop_last().push(n)),
        listing_of(new_repo, p.drop_last(), es),
    ensures
        exists|j: int| 0 <= j < es.len() && (#[trigger] es[j]).name@ == n,
        forall|j: int| 0 <= j < es.len() ==> (#[trigger] es[j]).name@ != p.last(),
{
    let par = p.drop_last();
    let to = par.push(n);
    assert(is_prefix(p, p));
    assert(to + p.skip(p.len() as int) =~= to);
    assert(new_repo.has(to));
    assert(to.len() == par.len() + 1);
    assert(is_prefix(par, to));
    assert(to.last() == n);
    assert(exists|j: int| 0 <= j < es.len() && (#[trigger] es[j]).name@ == to.last());
    assert forall|j: int| 0 <= j < es.len() implies (#[trigger] es[j]).name@ != p.last() by {
        if es[j].name@ == p.last() {
            assert(new_repo.has(par.push(es[j].name@)));
            assert(par.push(p.last()) =~= p);
            assert(new_repo.has(p));
            assert(!is_prefix(p, p));
        }
    }
}

/// After a successful move of `p` into the directory `d`, a listing of `d`
/// holds an entry with `p`'s final name, and a listing of `p`'s old parent
/// no longer does.
pub proof fn lemma_move_then_list(
    old_repo: Repo,
    new_repo: Repo,
    p: Seq<Seq<char>>,
    d: Seq<Seq<char>>,
    es_dest: Seq<Entry>,
    es_parent: Seq<Entry>,
)
    requires
        p.len() >= 1,
        old_repo.has(p),
        d.push(p.last()) != p,
        relocated_maps(old_repo.entries(), new_repo.entries(), p, d.push(p.last())),
        listing_of(new_repo, d, es_dest),
        listing_of(new_repo, p.drop_last(), es_parent),
    ensures
        exists|j: int| 0 <= j < es_dest.len() && (#[trigger] es_dest[j]).name@ == p.last(),
        forall|j: int| 0 <= j < es_parent.len() ==> (#[trigger] es_parent[j]).name@ != p.last(),
{
    let to = d.push(p.last());
    assert(is_prefix(p, p));
    assert(to + p.skip(p.len() as int) =~= to);
    assert(new_repo.has(to));
    assert(to.len() == d.len() + 1);
    assert(is_prefix(d, to));
    assert(to.last() == p.last());
    assert(exists|j: int| 0 <= j < es_dest.len() && (#[trigger] es_dest[j]).name@ == to.last());
    let par = p.drop_last();
    assert forall|j: int| 0 <= j < es_parent.len() implies (#[trigger] es_parent[j]).name@
        != p.last() by {
        if es_parent[j].name@ == p.last() {
            assert(new_repo.has(par.push(es_parent[j].name@)));
            assert(par.push(p.last()) =~= p);
            assert(new_repo.has(p));
            assert(!is_prefix(p, p));
        }
    }
}

/// String equality by value.
fn string_eq(a: &String, b: &String) -> (r: bool)
    ensures
        r == (a@ == b@),
{
    a.eq(b)
}

/// Segment-path equality by value.
fn path_eq(a: &Vec<String>, b: &Vec<String>) -> (r: bool)
    ensures
        r == (a.deep_view() == b.deep_view()),
{
    if a.len() != b.len() {
        proof {
            assert(a.deep_view().len() == a@.len());
            assert(b.deep_view().len() == b@.len());
        }
        return false;
    }
    let mut i: usize = 0;
    while i < a.len()
        invariant
            a@.len() == b@.len(),
            0 <= i <= a@.len(),
            forall|j: int| 0 <= j < i ==> a.deep_view()[j] == b.deep_view()[j],
        decreases a@.len() - i,
    {
        if !string_eq(&a[i], &b[i]) {
            proof {
                assert(a.deep_view()[i as int] == a@[i as int]@);
                assert(b.deep_view()[i as int] == b@[i as int]@);
            }
            return false;
        }
        i = i + 1;
    }
    proof {
        assert(a.deep_view() =~= b.deep_view());
    }
    true
}

} // verus!
