//! The texts of the modules, and the tree in whose order they come out.
use crate::text::{Text, texts};
use dashmap::DashMap;
use vstd::prelude::*;

verus! {

/// `dashmap::DashMap`, a map that many threads can fill at once.
#[verifier::external_type_specification]
#[verifier::external_body]
#[verifier::reject_recursive_types(K)]
#[verifier::reject_recursive_types(V)]
#[verifier::reject_recursive_types(S)]
pub struct ExDashMap<K, V, S>(dashmap::DashMap<K, V, S>);

/// The texts of the modules that have one, by the path of the module.
pub type Pkgs = DashMap<Vec<String>, String>;

/// What a map of module texts holds.
pub uninterp spec fn pkg_texts(pkgs: DashMap<Vec<String>, String>) -> Map<Seq<Seq<char>>, Seq<char>>;

/// No texts at all.
pub open spec fn no_texts() -> Map<Seq<Text>, Text> {
    Map::empty()
}

/// Calls `DashMap::default`: the new map holds nothing.
#[verifier::external_body]
pub(crate) fn new_pkgs() -> (pkgs: Pkgs)
    ensures
        pkg_texts(pkgs) == no_texts(),
{
    Default::default()
}

/// Calls `DashMap::entry` and `Entry::or_default`, and adds to the text that
/// this gives: the module's text, which is empty if it had none, grows by `code`
/// at its end; all other modules are left alone.
#[verifier::external_body]
pub(crate) fn append_pkg(pkgs: &mut Pkgs, path: Vec<String>, code: &str)
    ensures
        pkg_texts(*final(pkgs)) == pkg_texts(*old(pkgs)).insert(
            texts(path@),
            (if pkg_texts(*old(pkgs)).contains_key(texts(path@)) {
                pkg_texts(*old(pkgs))[texts(path@)]
            } else {
                Seq::empty()
            }) + code@,
        ),
{
    pkgs.entry(path).or_default().push_str(code);
}

/// Calls `DashMap::remove`: the module's text is taken out of the map and handed
/// back, if it has one; all other modules are left alone.
#[verifier::external_body]
fn take_pkg(pkgs: &mut Pkgs, path: &Vec<String>) -> (taken: Option<(Vec<String>, String)>)
    ensures
        pkg_texts(*final(pkgs)) == pkg_texts(*old(pkgs)).remove(texts(path@)),
        match taken {
            Some((key, code)) => {
                &&& texts(key@) == texts(path@)
                &&& pkg_texts(*old(pkgs)).contains_key(texts(path@))
                &&& code@ == pkg_texts(*old(pkgs))[texts(path@)]
            },
            None => !pkg_texts(*old(pkgs)).contains_key(texts(path@)),
        },
{
    pkgs.remove(path)
}

/// The paths that a sequence of keys holds.
pub open spec fn paths(keys: Seq<Vec<String>>) -> Seq<Seq<Text>> {
    Seq::new(keys.len(), |i: int| texts(keys[i]@))
}

/// Walks the map with `DashMap::iter` and collects the keys with
/// `Itertools::collect_vec`: each module that has a text comes up once, in no
/// order that could be relied upon.
#[verifier::external_body]
fn pkg_keys(pkgs: &Pkgs) -> (keys: Vec<Vec<String>>)
    ensures
        paths(keys@).no_duplicates(),
        paths(keys@).to_set() == pkg_texts(*pkgs).dom(),
{
    itertools::Itertools::collect_vec(pkgs.iter().map(|kv| kv.key().clone()))
}

/// A module in the tree of modules.
#[derive(Debug)]
pub struct PkgNode {
    /// The path of the module from the root.
    pub path: Vec<String>,
    /// The last component of the path; the root has none.
    pub ident: Option<String>,
    pub children: Vec<PkgNode>,
}

impl PkgNode {
    /// Whether the module has no name of its own, as the root has none.
    pub open spec fn unnamed(self) -> bool {
        match self.ident {
            Some(ident) => ident@.len() == 0,
            None => true,
        }
    }

    /// The name of the module.
    pub fn ident(&self) -> (ident: Option<&String>)
        ensures
            match ident {
                Some(ident) => self.ident == Some(*ident),
                None => self.ident is None,
            },
    {
        self.ident.as_ref()
    }
}

/// The text of a module, which is empty if it has none.
pub open spec fn text_of(pkgs: Map<Seq<Text>, Text>, path: Seq<Text>) -> Text {
    if pkgs.contains_key(path) {
        pkgs[path]
    } else {
        Seq::empty()
    }
}

/// What is left of the texts once the modules of a forest have been written, and
/// what has been written: of each module first its own text, then that of its
/// children. A text is written once, where its path first comes up. Nothing is
/// written after a module without a name and its children.
pub open spec fn write_out(pkgs: Map<Seq<Text>, Text>, nodes: Seq<PkgNode>) -> (
    Map<Seq<Text>, Text>,
    Text,
)
    decreases nodes,
{
    if nodes.len() == 0 {
        (pkgs, Seq::empty())
    } else {
        let path = texts(nodes[0].path@);
        let own = text_of(pkgs, path);
        let (left, below) = write_out(pkgs.remove(path), nodes[0].children@);
        if nodes[0].unnamed() {
            (left, own + below)
        } else {
            let (rest, after) = write_out(left, nodes.drop_first());
            (rest, own + below + after)
        }
    }
}

/// Writes the texts of the modules of a forest to the stream, and takes them out
/// of the map.
pub fn write_stream(pkgs: &mut Pkgs, stream: &mut String, nodes: &Vec<PkgNode>)
    ensures
        pkg_texts(*final(pkgs)) == write_out(pkg_texts(*old(pkgs)), nodes@).0,
        final(stream)@ == old(stream)@ + write_out(pkg_texts(*old(pkgs)), nodes@).1,
    decreases nodes@,
{
    let ghost pkgs0 = pkg_texts(*pkgs);
    let ghost stream0 = stream@;
    let ghost mut written: Text = Seq::empty();
    let mut i: usize = 0;
    assert(nodes@.skip(0) =~= nodes@);
    assert(stream0 + written =~= stream0);
    assert(written + write_out(pkgs0, nodes@).1 =~= write_out(pkgs0, nodes@).1);
    while i < nodes.len()
        invariant
            i <= nodes@.len(),
            pkgs0 == pkg_texts(*old(pkgs)),
            stream0 == old(stream)@,
            stream@ == stream0 + written,
            write_out(pkgs0, nodes@) == (
                write_out(pkg_texts(*pkgs), nodes@.skip(i as int)).0,
                written + write_out(pkg_texts(*pkgs), nodes@.skip(i as int)).1,
            ),
        decreases nodes@.len() - i,
    {
        let ghost rest = nodes@.skip(i as int);
        let ghost pkgs1 = pkg_texts(*pkgs);
        let ghost path = texts(nodes@[i as int].path@);
        let ghost own = text_of(pkgs1, path);
        assert(rest[0] == nodes@[i as int]);
        assert(rest.drop_first() =~= nodes@.skip(i + 1));
        let node = &nodes[i];
        let mut inner = String::new();
        if let Some((_, code)) = take_pkg(pkgs, &node.path) {
            inner.append(code.as_str());
        }
        assert(inner@ =~= own);
        write_stream(pkgs, &mut inner, &node.children);
        stream.append(inner.as_str());
        let unnamed = match node.ident() {
            Some(ident) => ident.as_str().is_empty(),
            None => true,
        };
        proof {
            let below = write_out(pkgs1.remove(path), nodes@[i as int].children@).1;
            if unnamed {
                assert(stream@ =~= stream0 + (written + (own + below)));
            } else {
                let after = write_out(pkg_texts(*pkgs), rest.drop_first()).1;
                assert(written + (own + below + after) =~= (written + (own + below)) + after);
                assert(stream@ =~= stream0 + (written + (own + below)));
            }
            written = written + (own + below);
        }
        if unnamed {
            return ;
        }
        i += 1;
    }
    assert(nodes@.skip(i as int).len() == 0);
    assert(written + Seq::<char>::empty() =~= written);
}

/// Whether `nodes` may be the tree of the modules that have a text: `from_pkgs`
/// makes it of `keys`, which are their paths, each once.
pub open spec fn tree_of<F: Fn(&Vec<Vec<String>>) -> Vec<PkgNode>>(
    pkgs: Map<Seq<Text>, Text>,
    from_pkgs: F,
    keys: Vec<Vec<String>>,
    nodes: Vec<PkgNode>,
) -> bool {
    &&& paths(keys@).no_duplicates()
    &&& paths(keys@).to_set() == pkgs.dom()
    &&& call_ensures(from_pkgs, (&keys,), nodes)
}

/// Writes the texts of the modules to the stream, in the order of the tree that
/// `from_pkgs` makes of their paths.
pub fn put_together<F: Fn(&Vec<Vec<String>>) -> Vec<PkgNode>>(
    pkgs: Pkgs,
    stream: &mut String,
    from_pkgs: F,
)
    requires
        forall|keys: &Vec<Vec<String>>| call_requires(from_pkgs, (keys,)),
    ensures
        exists|keys: Vec<Vec<String>>, nodes: Vec<PkgNode>| #[trigger]
            tree_of(pkg_texts(pkgs), from_pkgs, keys, nodes) && final(stream)@ == old(stream)@
                + write_out(pkg_texts(pkgs), nodes@).1,
{
    let mut pkgs = pkgs;
    let ghost texts0 = pkg_texts(pkgs);
    let keys = pkg_keys(&pkgs);
    let nodes = from_pkgs(&keys);
    write_stream(&mut pkgs, stream, &nodes);
    assert(tree_of(texts0, from_pkgs, keys, nodes));
}

} // verus!
