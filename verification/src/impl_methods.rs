//! Finding the methods of a file's `impl` blocks, each named
//! `"Type::method"` after the last segment of the block's `Self` type, so
//! that it cannot collide with a free function or with an identically
//! named method of another type. Blocks inside inline modules count, at any
//! depth; blocks whose `Self` type is not a path are skipped.

use vstd::prelude::*;

use crate::syntax::{Kind, Node};
use crate::text::push_str;

verus! {

/// The items among `ns` (attributes are not items), each followed by the
/// items of its inline module when it is one.
pub open spec fn items_of(ns: Seq<Node>) -> Seq<Node>
    decreases ns, 0nat,
{
    if ns.len() == 0 {
        Seq::empty()
    } else {
        items_of(ns.drop_last()) + item_and_contents(ns.last())
    }
}

pub open spec fn item_and_contents(n: Node) -> Seq<Node>
    decreases n, 1nat,
{
    if n.kind == Kind::Attr {
        Seq::empty()
    } else if n.kind == Kind::ModDef {
        seq![n] + items_of(n.children@)
    } else {
        seq![n]
    }
}

/// The name of an `impl` block's `Self` type, when it is a path.
pub open spec fn spec_self_type_name(block: Node) -> Option<Seq<char>> {
    if block.kind == Kind::ImplBlock && block.name@.len() > 0 {
        Some(block.name@)
    } else {
        None
    }
}

/// The methods of one block, qualified by its type name.
pub open spec fn block_methods(owner: Seq<char>, items: Seq<Node>) -> Seq<(Seq<char>, Node)>
    decreases items.len(),
{
    if items.len() == 0 {
        Seq::empty()
    } else {
        block_methods(owner, items.drop_last()) + if items.last().kind == Kind::FnItem {
            seq![(owner + "::"@ + items.last().name@, items.last())]
        } else {
            Seq::empty()
        }
    }
}

/// The methods of every `impl` block among `items`, in order.
pub open spec fn methods_of(items: Seq<Node>) -> Seq<(Seq<char>, Node)>
    decreases items.len(),
{
    if items.len() == 0 {
        Seq::empty()
    } else {
        methods_of(items.drop_last()) + match spec_self_type_name(items.last()) {
            Some(t) => block_methods(t, items.last().children@),
            None => Seq::empty(),
        }
    }
}

/// The nodes behind a list of references.
pub open spec fn derefs(s: Seq<&Node>) -> Seq<Node> {
    s.map_values(|r: &Node| *r)
}

fn collect_items<'a>(ns: &'a Vec<Node>, out: &mut Vec<&'a Node>)
    ensures
        derefs(final(out)@) == derefs(old(out)@) + items_of(ns@),
    decreases ns@,
{
    let mut i: usize = 0;
    let ghost start = derefs(out@);
    while i < ns.len()
        invariant
            i <= ns@.len(),
            derefs(out@) == start + items_of(ns@.take(i as int)),
        decreases ns@.len() - i,
    {
        assert(ns@.take(i + 1).drop_last() =~= ns@.take(i as int));
        let n = &ns[i];
        let ghost before = derefs(out@);
        assert(ns@.take(i + 1).last() == *n);
        if n.kind == Kind::Attr {
            assert(derefs(out@) =~= before + item_and_contents(*n));
        } else if n.kind == Kind::ModDef {
            out.push(n);
            assert(derefs(out@) =~= before.push(*n));
            collect_items(&n.children, out);
            assert(derefs(out@) =~= before + item_and_contents(*n));
        } else {
            out.push(n);
            assert(derefs(out@) =~= before + item_and_contents(*n));
        }
        assert(derefs(out@) =~= start + items_of(ns@.take(i + 1)));
        i = i + 1;
    }
    assert(ns@.take(ns@.len() as int) =~= ns@);
}

/// Every item of the file, each followed by the contents of its inline
/// module when it is one.
pub fn flatten_items(file: &Node) -> (r: Vec<&Node>)
    ensures
        derefs(r@) == items_of(file.children@),
{
    let mut out: Vec<&Node> = Vec::new();
    collect_items(&file.children, &mut out);
    assert(derefs(out@) =~= items_of(file.children@));
    out
}

/// The last segment of an `impl` block's `Self` type, when that type is a
/// path.
pub fn impl_self_type_name(block: &Node) -> (r: Option<String>)
    ensures
        match r {
            Some(s) => spec_self_type_name(*block) == Some(s@),
            None => spec_self_type_name(*block) is None,
        },
{
    if block.kind == Kind::ImplBlock && block.name.unicode_len() > 0 {
        Some(block.name.clone())
    } else {
        None
    }
}

/// Every method of every `impl` block of the file, named
/// `"Type::method"`, in the order the blocks and their items appear.
pub fn impl_methods(file: &Node) -> (r: Vec<(String, &Node)>)
    ensures
        r@.map_values(|p: (String, &Node)| (p.0@, *p.1)) == methods_of(items_of(file.children@)),
{
    let items = flatten_items(file);
    let ghost its = derefs(items@);
    let mut out: Vec<(String, &Node)> = Vec::new();
    let mut i: usize = 0;
    while i < items.len()
        invariant
            i <= items@.len(),
            its == derefs(items@),
            its.len() == items@.len(),
            its == items_of(file.children@),
            out@.map_values(|p: (String, &Node)| (p.0@, *p.1)) == methods_of(its.take(i as int)),
        decreases items@.len() - i,
    {
        assert(its.take(i + 1).drop_last() =~= its.take(i as int));
        let block = items[i];
        let ghost before = out@.map_values(|p: (String, &Node)| (p.0@, *p.1));
        match impl_self_type_name(block) {
            Some(t) => {
                let mut k: usize = 0;
                while k < block.children.len()
                    invariant
                        k <= block.children@.len(),
                        spec_self_type_name(*block) == Some(t@),
                        out@.map_values(|p: (String, &Node)| (p.0@, *p.1)) == before + block_methods(
                            t@,
                            block.children@.take(k as int),
                        ),
                    decreases block.children@.len() - k,
                {
                    assert(block.children@.take(k + 1).drop_last() =~= block.children@.take(k as int));
                    let m = &block.children[k];
                    let ghost mid = out@.map_values(|p: (String, &Node)| (p.0@, *p.1));
                    if m.kind == Kind::FnItem {
                        let mut name = t.clone();
                        push_str(&mut name, "::");
                        push_str(&mut name, m.name.as_str());
                        out.push((name, m));
                        assert(out@.map_values(|p: (String, &Node)| (p.0@, *p.1)) =~= mid.push(
                            (t@ + "::"@ + m.name@, *m),
                        ));
                    }
                    assert(out@.map_values(|p: (String, &Node)| (p.0@, *p.1)) =~= before + block_methods(
                        t@,
                        block.children@.take(k + 1),
                    ));
                    k = k + 1;
                }
                assert(block.children@.take(block.children@.len() as int) =~= block.children@);
            },
            None => {},
        }
        assert(out@.map_values(|p: (String, &Node)| (p.0@, *p.1)) =~= methods_of(its.take(i + 1)));
        i = i + 1;
    }
    assert(its.take(its.len() as int) =~= its);
    out
}

} // verus!
