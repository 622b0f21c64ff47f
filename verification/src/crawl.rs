//! Which files the configured paths lead to.

use vstd::prelude::*;
use vstd::seq_lib::{
    lemma_multiset_commutative, to_multiset_contains, to_multiset_len, to_multiset_remove,
};
use crate::config::Config;

verus! {

/// What the file system showed at one path.
pub enum Kind {
    /// A regular file.
    File,
    /// A directory, with what was found at each of its entries, in the order
    /// in which the file system listed them.
    Directory(Vec<Node>),
    /// A directory whose entries could not be listed.
    Unreadable,
    /// Nothing, or something that is neither a regular file nor a directory.
    Other,
    /// An entry of a directory that the file system listed but could not hand
    /// out.
    Unknown,
}

/// A path, with what the file system showed there.
pub struct Node {
    pub path: String,
    pub kind: Kind,
}

/// What a path is, told from what the file system answered: a regular file
/// where it says so; else a directory where it says so, unreadable where it
/// gave no listing; else something that is passed over.
pub open spec fn kind_of(is_file: bool, is_directory: bool, listing: Option<Vec<Node>>) -> Kind {
    if is_file {
        Kind::File
    } else if is_directory {
        match listing {
            Some(entries) => Kind::Directory(entries),
            None => Kind::Unreadable,
        }
    } else {
        Kind::Other
    }
}

/// What a path is, told from what the file system answered.
pub fn classify(is_file: bool, is_directory: bool, listing: Option<Vec<Node>>) -> (kind: Kind)
    ensures
        kind == kind_of(is_file, is_directory, listing),
{
    if is_file {
        Kind::File
    } else if is_directory {
        match listing {
            Some(entries) => Kind::Directory(entries),
            None => Kind::Unreadable,
        }
    } else {
        Kind::Other
    }
}

/// The regular files at and below a path, in the order of a walk that visits
/// the entries of a directory one after the other, each with all that is
/// below it.
pub open spec fn files_under(node: Node) -> Seq<String>
    decreases node,
{
    match node.kind {
        Kind::File => seq![node.path],
        Kind::Directory(entries) => files_among(entries@),
        _ => Seq::empty(),
    }
}

/// The regular files at and below the given paths, path by path.
pub open spec fn files_among(nodes: Seq<Node>) -> Seq<String>
    decreases nodes,
{
    if nodes.len() == 0 {
        Seq::empty()
    } else {
        files_among(nodes.drop_last()) + files_under(nodes.last())
    }
}

/// The directories at and below a path whose entries could not be listed, in
/// the order of the same walk.
pub open spec fn unreadable_under(node: Node) -> Seq<String>
    decreases node,
{
    match node.kind {
        Kind::Unreadable => seq![node.path],
        Kind::Directory(entries) => unreadable_among(entries@),
        _ => Seq::empty(),
    }
}

/// The unreadable directories at and below the given paths, path by path.
pub open spec fn unreadable_among(nodes: Seq<Node>) -> Seq<String>
    decreases nodes,
{
    if nodes.len() == 0 {
        Seq::empty()
    } else {
        unreadable_among(nodes.drop_last()) + unreadable_under(nodes.last())
    }
}

/// Walks what was found at and below a path: records each regular file, goes
/// through each directory entry by entry, and records each directory that
/// could not be listed. Anything else is passed over.
pub fn crawl(results: &mut Vec<String>, unreadable: &mut Vec<String>, node: &Node)
    ensures
        final(results)@ == old(results)@ + files_under(*node),
        final(unreadable)@ == old(unreadable)@ + unreadable_under(*node),
    decreases node,
{
    match &node.kind {
        Kind::File => {
            results.push(node.path.clone());
            assert(results@ =~= old(results)@ + files_under(*node));
            assert(unreadable@ =~= old(unreadable)@ + unreadable_under(*node));
        },
        Kind::Directory(entries) => {
            let mut index: usize = 0;
            assert(entries@.take(0) =~= Seq::<Node>::empty());
            assert(results@ =~= old(results)@ + files_among(entries@.take(0)));
            assert(unreadable@ =~= old(unreadable)@ + unreadable_among(entries@.take(0)));
            while index < entries.len()
                invariant
                    index <= entries.len(),
                    node.kind == Kind::Directory(*entries),
                    results@ == old(results)@ + files_among(entries@.take(index as int)),
                    unreadable@ == old(unreadable)@ + unreadable_among(
                        entries@.take(index as int),
                    ),
                decreases entries.len() - index,
            {
                proof {
                    vstd::std_specs::vec::axiom_vec_index_decreases(*entries, index as int);
                    assert(decreases_to!(*entries => entries[index as int]));
                    assert(decreases_to!(node.kind => node.kind->Directory_0));
                }
                crawl(results, unreadable, &entries[index]);
                proof {
                    let seen = entries@.take(index + 1);
                    assert(seen.drop_last() =~= entries@.take(index as int));
                    assert(seen.last() == entries@[index as int]);
                    assert(results@ =~= old(results)@ + files_among(seen));
                    assert(unreadable@ =~= old(unreadable)@ + unreadable_among(seen));
                }
                index = index + 1;
            }
            assert(entries@.take(index as int) =~= entries@);
        },
        Kind::Unreadable => {
            unreadable.push(node.path.clone());
            assert(results@ =~= old(results)@ + files_under(*node));
            assert(unreadable@ =~= old(unreadable)@ + unreadable_under(*node));
        },
        _ => {
            assert(results@ =~= old(results)@ + files_under(*node));
            assert(unreadable@ =~= old(unreadable)@ + unreadable_under(*node));
        },
    }
}

/// What the file system showed at the configured paths.
pub struct Snapshot {
    /// One node for each path that was looked at.
    pub roots: Vec<Node>,
}

/// The first of the nodes that stands for the given path.
pub open spec fn first_at(roots: Seq<Node>, path: Seq<char>) -> Option<Node>
    decreases roots.len(),
{
    if roots.len() == 0 {
        None
    } else if roots[0].path@ == path {
        Some(roots[0])
    } else {
        first_at(roots.drop_first(), path)
    }
}

impl Snapshot {
    /// What was found at a path. A path that was not looked at shows nothing.
    pub open spec fn observed_at(self, path: Seq<char>) -> Option<Node> {
        first_at(self.roots@, path)
    }

    /// What was found at a path.
    pub fn lookup(&self, path: &String) -> (found: Option<&Node>)
        ensures
            match found {
                Some(node) => self.observed_at(path@) == Some(*node),
                None => self.observed_at(path@) is None,
            },
    {
        let mut index: usize = 0;
        assert(self.roots@.skip(0) =~= self.roots@);
        while index < self.roots.len()
            invariant
                index <= self.roots.len(),
                first_at(self.roots@, path@) == first_at(self.roots@.skip(index as int), path@),
            decreases self.roots.len() - index,
        {
            let node = &self.roots[index];
            if node.path == *path {
                return Some(node);
            }
            assert(self.roots@.skip(index as int).drop_first() =~= self.roots@.skip(index + 1));
            index = index + 1;
        }
        None
    }
}

/// The files that a walk found, and the directories that it could not list.
pub struct Discovered {
    /// The regular files, in the order of the walk.
    pub files: Vec<String>,
    /// The directories whose entries could not be listed, in the order of the
    /// walk.
    pub unreadable: Vec<String>,
}

/// The regular files that the paths lead to: path by path, and below each
/// path in the order of the walk.
pub open spec fn files_for(paths: Seq<String>, snapshot: Snapshot) -> Seq<String>
    decreases paths.len(),
{
    if paths.len() == 0 {
        Seq::empty()
    } else {
        files_for(paths.drop_last(), snapshot) + match snapshot.observed_at(paths.last()@) {
            Some(node) => files_under(node),
            None => Seq::empty(),
        }
    }
}

/// The unreadable directories that the paths lead to, in the same order.
pub open spec fn unreadable_for(paths: Seq<String>, snapshot: Snapshot) -> Seq<String>
    decreases paths.len(),
{
    if paths.len() == 0 {
        Seq::empty()
    } else {
        unreadable_for(paths.drop_last(), snapshot) + match snapshot.observed_at(paths.last()@) {
            Some(node) => unreadable_under(node),
            None => Seq::empty(),
        }
    }
}

/// Walks the configured paths in the order of the configuration and collects
/// what the walks find.
pub fn get_all_input_paths(config: &Config, snapshot: &Snapshot) -> (found: Discovered)
    ensures
        found.files@ == files_for(config.input_paths@, *snapshot),
        found.unreadable@ == unreadable_for(config.input_paths@, *snapshot),
{
    let mut files: Vec<String> = Vec::new();
    let mut unreadable: Vec<String> = Vec::new();
    let mut index: usize = 0;
    assert(config.input_paths@.take(0) =~= Seq::<String>::empty());
    while index < config.input_paths.len()
        invariant
            index <= config.input_paths.len(),
            files@ == files_for(config.input_paths@.take(index as int), *snapshot),
            unreadable@ == unreadable_for(config.input_paths@.take(index as int), *snapshot),
        decreases config.input_paths.len() - index,
    {
        proof {
            let seen = config.input_paths@.take(index + 1);
            assert(seen.drop_last() =~= config.input_paths@.take(index as int));
            assert(seen.last() == config.input_paths@[index as int]);
        }
        match snapshot.lookup(&config.input_paths[index]) {
            Some(node) => {
                crawl(&mut files, &mut unreadable, node);
            },
            None => {
                assert(files@ + Seq::<String>::empty() =~= files@);
                assert(unreadable@ + Seq::<String>::empty() =~= unreadable@);
            },
        }
        index = index + 1;
    }
    assert(config.input_paths@.take(index as int) =~= config.input_paths@);
    Discovered { files, unreadable }
}

/// The warning for a directory whose entries could not be listed.
pub fn unreadable_warning(path: &str) -> (text: String)
    ensures
        text@ == "WARNING: Unable to read directory "@ + path@,
{
    String::from_str("WARNING: Unable to read directory ").concat(path)
}

/// A node that is found at a path carries that path.
pub proof fn lemma_first_at_carries_path(roots: Seq<Node>, path: Seq<char>)
    ensures
        first_at(roots, path) is Some ==> first_at(roots, path)->0.path@ == path,
    decreases roots.len(),
{
    if roots.len() > 0 && roots[0].path@ != path {
        lemma_first_at_carries_path(roots.drop_first(), path);
    }
}

/// Where every path is a regular file, the walk finds exactly the paths
/// themselves, one file per path and in their order, and meets no unreadable
/// directory.
pub proof fn lemma_regular_files_are_found(paths: Seq<String>, snapshot: Snapshot)
    requires
        forall|i: int|
            0 <= i < paths.len() ==> (#[trigger] snapshot.observed_at(paths[i]@)) is Some
                && snapshot.observed_at(paths[i]@)->0.kind is File,
    ensures
        files_for(paths, snapshot).len() == paths.len(),
        forall|i: int| 0 <= i < paths.len() ==> (#[trigger] files_for(paths, snapshot)[i])@ == paths[i]@,
        unreadable_for(paths, snapshot).len() == 0,
    decreases paths.len(),
{
    if paths.len() > 0 {
        let earlier = paths.drop_last();
        assert forall|i: int| 0 <= i < earlier.len() implies (#[trigger] snapshot.observed_at(
            earlier[i]@,
        )) is Some && snapshot.observed_at(earlier[i]@)->0.kind is File by {
            assert(earlier[i] == paths[i]);
        }
        lemma_regular_files_are_found(earlier, snapshot);
        let last = paths.len() - 1;
        assert(snapshot.observed_at(paths[last]@) is Some);
        lemma_first_at_carries_path(snapshot.roots@, paths.last()@);
        assert forall|i: int| 0 <= i < paths.len() implies (#[trigger] files_for(
            paths,
            snapshot,
        )[i])@ == paths[i]@ by {
            if i < last {
                assert(files_for(paths, snapshot)[i] == files_for(earlier, snapshot)[i]);
                assert(earlier[i] == paths[i]);
            }
        }
    }
}

/// The paths of the nodes, in order.
pub open spec fn paths_of(nodes: Seq<Node>) -> Seq<String> {
    nodes.map_values(|node: Node| node.path)
}

/// Where all the given nodes are regular files, the walk finds each of them,
/// in their order.
pub proof fn lemma_files_are_all_found(nodes: Seq<Node>)
    requires
        forall|i: int| 0 <= i < nodes.len() ==> (#[trigger] nodes[i]).kind is File,
    ensures
        files_among(nodes) == paths_of(nodes),
    decreases nodes.len(),
{
    if nodes.len() == 0 {
        assert(files_among(nodes) =~= paths_of(nodes));
    } else {
        let earlier = nodes.drop_last();
        assert forall|i: int| 0 <= i < earlier.len() implies (#[trigger] earlier[i]).kind is File by {
            assert(earlier[i] == nodes[i]);
        }
        lemma_files_are_all_found(earlier);
        assert(nodes.last().kind is File);
        assert(files_under(nodes.last()) =~= seq![nodes.last().path]);
        assert(paths_of(nodes) =~= paths_of(earlier).push(nodes.last().path));
        assert(files_among(nodes) =~= paths_of(nodes));
    }
}

/// A directory that holds regular files and nothing else yields as many files
/// as it has entries, whatever the order in which the entries were listed:
/// the path of each entry, in that order.
pub proof fn lemma_flat_directory_yields_its_entries(node: Node)
    requires
        node.kind is Directory,
        forall|i: int|
            0 <= i < node.kind->Directory_0@.len() ==> (#[trigger] node.kind->Directory_0@[i]).kind
                is File,
    ensures
        files_under(node).len() == node.kind->Directory_0@.len(),
        forall|i: int|
            0 <= i < node.kind->Directory_0@.len() ==> (#[trigger] files_under(node)[i])
                == node.kind->Directory_0@[i].path,
{
    lemma_files_are_all_found(node.kind->Directory_0@);
}

/// The walk of one list of nodes after another finds what each walk finds,
/// one after the other.
pub proof fn lemma_walk_of_two_lists(first: Seq<Node>, second: Seq<Node>)
    ensures
        files_among(first + second) == files_among(first) + files_among(second),
    decreases second.len(),
{
    if second.len() == 0 {
        assert(first + second =~= first);
        assert(files_among(first) + files_among(second) =~= files_among(first));
    } else {
        lemma_walk_of_two_lists(first, second.drop_last());
        assert((first + second).drop_last() =~= first + second.drop_last());
        assert((first + second).last() == second.last());
        assert(files_among(first + second) =~= files_among(first) + files_among(second));
    }
}

/// The order in which entries are listed decides the order in which files are
/// found, and nothing else: two listings of the same entries lead to the same
/// files, each as often as in the other.
pub proof fn lemma_walk_ignores_order(first: Seq<Node>, second: Seq<Node>)
    requires
        first.to_multiset() == second.to_multiset(),
    ensures
        files_among(first).to_multiset() == files_among(second).to_multiset(),
        files_among(first).len() == files_among(second).len(),
    decreases first.len(),
{
    to_multiset_len(first);
    to_multiset_len(second);
    if first.len() == 0 {
        assert(second =~= first);
    } else {
        let last = first.last();
        let rest = first.drop_last();
        assert(first[first.len() - 1] == last);
        assert(first.contains(last));
        to_multiset_contains(first, last);
        to_multiset_contains(second, last);
        let place = second.lemma_contains_to_index(last);
        let others = second.remove(place);
        to_multiset_remove(first, first.len() - 1);
        assert(first.remove(first.len() - 1) =~= rest);
        to_multiset_remove(second, place);
        lemma_walk_ignores_order(rest, others);

        let front = second.subrange(0, place);
        let back = second.subrange(place + 1, second.len() as int);
        assert(second =~= (front + seq![last]) + back);
        lemma_walk_of_two_lists(front + seq![last], back);
        lemma_walk_of_two_lists(front, seq![last]);
        lemma_walk_of_two_lists(front, back);
        assert(seq![last].drop_last() =~= Seq::<Node>::empty());
        assert(seq![last].last() == last);
        assert(files_among(Seq::<Node>::empty()) =~= Seq::<String>::empty());
        assert(files_among(seq![last]) =~= files_under(last));

        let before = files_among(front);
        let here = files_under(last);
        let behind = files_among(back);
        lemma_multiset_commutative(before + here, behind);
        lemma_multiset_commutative(before, here);
        lemma_multiset_commutative(before, behind);
        lemma_multiset_commutative(before + behind, here);
        lemma_multiset_commutative(files_among(rest), here);
        assert(files_among(second).to_multiset() =~= files_among(first).to_multiset());
        to_multiset_len(files_among(first));
        to_multiset_len(files_among(second));
    }
}

} // verus!
