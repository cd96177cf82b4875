//! Plain-value models of the Rust syntax the rules read (`use` trees,
//! visibilities, module declarations), and the calls into `syn` that
//! produce them.
use vstd::prelude::*;

verus! {

broadcast use vstd::std_specs::vec::group_vec_axioms;

/// A `use` tree: `a::b`, a name with an optional rename, `self`, `*` or a
/// braced group.
pub enum UseNode {
    Path { ident: Vec<char>, child: Box<UseNode> },
    Name { ident: Vec<char>, rename: Option<Vec<char>> },
    Slf { rename: Option<Vec<char>> },
    Glob,
    Group { items: Vec<UseNode> },
}

/// A visibility: none, `pub`, or `pub(path)` / `pub(in path)`.
pub enum Vis {
    Inherited,
    Public,
    Restricted { path: Vec<Vec<char>>, has_in: bool },
}

/// What the rules read of a parsed `use` item.
pub struct ItemUseParts {
    pub vis: Vis,
    pub tree: UseNode,
}

/// What the rules read of a parsed `mod` item.
pub struct ItemModParts {
    pub vis: Vis,
    pub ident: Vec<char>,
    pub has_content: bool,
}

/// Name for the result of `syn::parse_str::<syn::ItemUse>` on the text,
/// as the parts above (`None` when syn rejects the text).
pub uninterp spec fn syn_item_use(text: Seq<char>) -> Option<ItemUseParts>;

/// Name for the result of `syn::parse_str::<syn::ItemMod>` on the text,
/// as the parts above (`None` when syn rejects the text).
pub uninterp spec fn syn_item_mod(text: Seq<char>) -> Option<ItemModParts>;

#[verifier::external_type_specification]
#[verifier::external_body]
pub struct ExUseTree(syn::UseTree);

#[verifier::external_type_specification]
#[verifier::external_body]
pub struct ExVisibility(syn::Visibility);

/// Conversion of a `syn::UseTree` into the plain model, variant by variant
/// (`Rename` becomes a `Name` with its rename). Nothing is stated of it:
/// the tree is opaque here; `parse_item_use` names the combined result.
#[verifier::external_body]
fn use_tree_to_node(tree: &syn::UseTree) -> UseNode {
    match tree {
        syn::UseTree::Path(p) => UseNode::Path {
            ident: p.ident.to_string().chars().collect(),
            child: Box::new(use_tree_to_node(&p.tree)),
        },
        syn::UseTree::Name(n) => UseNode::Name { ident: n.ident.to_string().chars().collect(), rename: None },
        syn::UseTree::Rename(r) => UseNode::Name {
            ident: r.ident.to_string().chars().collect(),
            rename: Some(r.rename.to_string().chars().collect()),
        },
        syn::UseTree::Glob(_) => UseNode::Glob,
        syn::UseTree::Group(g) => UseNode::Group { items: g.items.iter().map(use_tree_to_node).collect() },
    }
}

/// Conversion of a `syn::Visibility` into the plain model: the segments of
/// a restricted path and whether `in` was written. Nothing is stated of it:
/// the value is opaque here; the parse wrappers name the combined result.
#[verifier::external_body]
fn visibility_parts(vis: &syn::Visibility) -> Vis {
    match vis {
        syn::Visibility::Public(_) => Vis::Public,
        syn::Visibility::Restricted(r) => Vis::Restricted {
            path: r.path.segments.iter().map(|s| s.ident.to_string().chars().collect()).collect(),
            has_in: r.in_token.is_some(),
        },
        syn::Visibility::Inherited => Vis::Inherited,
    }
}

/// Calls `syn::parse_str::<syn::ItemUse>` on the text. Claimed: the result
/// is the named `syn_item_use` of the text, so the same text always parses
/// the same way.
#[verifier::external_body]
pub(crate) fn parse_item_use(text: &[char]) -> (r: Option<ItemUseParts>)
    ensures
        r == syn_item_use(text@),
{
    let s: String = text.iter().collect();
    match syn::parse_str::<syn::ItemUse>(&s) {
        Ok(item) => Some(ItemUseParts { vis: visibility_parts(&item.vis), tree: use_tree_to_node(&item.tree) }),
        Err(_) => None,
    }
}

/// Calls `syn::parse_str::<syn::ItemMod>` on the text. Claimed: the result
/// is the named `syn_item_mod` of the text.
#[verifier::external_body]
pub(crate) fn parse_item_mod(text: &[char]) -> (r: Option<ItemModParts>)
    ensures
        r == syn_item_mod(text@),
{
    let s: String = text.iter().collect();
    match syn::parse_str::<syn::ItemMod>(&s) {
        Ok(item) => Some(ItemModParts {
            vis: visibility_parts(&item.vis),
            ident: item.ident.to_string().chars().collect(),
            has_content: item.content.is_some(),
        }),
        Err(_) => None,
    }
}

/// The value of a `use` tree: identifiers and renames as character
/// sequences.
#[verifier::ext_equal]
pub enum TreeModel {
    Path { ident: Seq<char>, child: Box<TreeModel> },
    Name { ident: Seq<char>, rename: Option<Seq<char>> },
    Slf { rename: Option<Seq<char>> },
    Glob,
    Group { items: Seq<TreeModel> },
}

pub open spec fn opt_view(o: Option<Vec<char>>) -> Option<Seq<char>> {
    match o {
        Some(v) => Some(v@),
        None => None,
    }
}

pub open spec fn tree_view(n: UseNode) -> TreeModel
    decreases n, 0nat,
{
    match n {
        UseNode::Path { ident, child } => TreeModel::Path {
            ident: ident@,
            child: Box::new(tree_view(*child)),
        },
        UseNode::Name { ident, rename } => TreeModel::Name { ident: ident@, rename: opt_view(rename) },
        UseNode::Slf { rename } => TreeModel::Slf { rename: opt_view(rename) },
        UseNode::Glob => TreeModel::Glob,
        UseNode::Group { items } => TreeModel::Group { items: trees_view(items@) },
    }
}

pub open spec fn trees_view(s: Seq<UseNode>) -> Seq<TreeModel>
    decreases s, 1nat,
{
    if s.len() == 0 {
        seq![]
    } else {
        seq![tree_view(s[0])] + trees_view(s.drop_first())
    }
}

impl View for UseNode {
    type V = TreeModel;

    open spec fn view(&self) -> TreeModel {
        tree_view(*self)
    }
}

pub proof fn lemma_trees_view_len(s: Seq<UseNode>)
    ensures
        trees_view(s).len() == s.len(),
        forall|i: int| 0 <= i < s.len() ==> #[trigger] trees_view(s)[i] == tree_view(s[i]),
    decreases s.len(),
{
    if s.len() > 0 {
        lemma_trees_view_len(s.drop_first());
        assert forall|i: int| 0 <= i < s.len() implies #[trigger] trees_view(s)[i] == tree_view(
            s[i],
        ) by {
            if i > 0 {
                assert(trees_view(s)[i] == trees_view(s.drop_first())[i - 1]);
            }
        }
    }
}

pub proof fn lemma_trees_view_push(s: Seq<UseNode>, x: UseNode)
    ensures
        trees_view(s.push(x)) == trees_view(s).push(tree_view(x)),
{
    lemma_trees_view_len(s);
    lemma_trees_view_len(s.push(x));
    assert(trees_view(s.push(x)) =~= trees_view(s).push(tree_view(x)));
}

/// A model sequence equals the views of an exec sequence pointwise.
pub proof fn lemma_trees_view_ext(s: Seq<UseNode>, m: Seq<TreeModel>)
    requires
        s.len() == m.len(),
        forall|i: int| 0 <= i < s.len() ==> tree_view(#[trigger] s[i]) == m[i],
    ensures
        trees_view(s) == m,
{
    lemma_trees_view_len(s);
    assert(trees_view(s) =~= m);
}

/// The visibility as written: `pub`, `pub(path)`, `pub(in path)` or nothing.
pub open spec fn spec_format_visibility(v: Vis) -> Seq<char> {
    match v {
        Vis::Public => seq!['p', 'u', 'b'],
        Vis::Restricted { path, has_in } => {
            let p = join_path(path@.map_values(|x: Vec<char>| x@));
            if has_in {
                seq!['p', 'u', 'b', '(', 'i', 'n', ' '] + p + seq![')']
            } else {
                seq!['p', 'u', 'b', '('] + p + seq![')']
            }
        },
        Vis::Inherited => seq![],
    }
}

/// Segments joined with `::`.
pub open spec fn join_path(segs: Seq<Seq<char>>) -> Seq<char>
    decreases segs.len(),
{
    if segs.len() == 0 {
        seq![]
    } else if segs.len() == 1 {
        segs[0]
    } else {
        join_path(segs.drop_last()) + seq![':', ':'] + segs.last()
    }
}

pub fn format_visibility(v: &Vis) -> (r: Vec<char>)
    ensures
        r@ == spec_format_visibility(*v),
{
    match v {
        Vis::Public => {
            let r = vec!['p', 'u', 'b'];
            assert(r@ =~= seq!['p', 'u', 'b']);
            r
        },
        Vis::Restricted { path, has_in } => {
            let ghost segs = path@.map_values(|x: Vec<char>| x@);
            let mut p: Vec<char> = Vec::new();
            let mut i: usize = 0;
            while i < path.len()
                invariant
                    i <= path.len(),
                    segs == path@.map_values(|x: Vec<char>| x@),
                    p@ == join_path(segs.take(i as int)),
                decreases path.len() - i,
            {
                assert(segs.take(i + 1).drop_last() =~= segs.take(i as int));
                assert(segs.take(i + 1).last() == path@[i as int]@);
                if i > 0 {
                    p.push(':');
                    p.push(':');
                }
                crate::text::push_all(&mut p, path[i].as_slice());
                i += 1;
                if i == 1 {
                    assert(p@ =~= join_path(segs.take(i as int)));
                } else {
                    assert(p@ =~= join_path(segs.take(i as int)));
                }
            }
            assert(segs.take(path.len() as int) =~= segs);
            let mut r: Vec<char> = if *has_in {
                vec!['p', 'u', 'b', '(', 'i', 'n', ' ']
            } else {
                vec!['p', 'u', 'b', '(']
            };
            let ghost r0 = r@;
            crate::text::push_all(&mut r, p.as_slice());
            r.push(')');
            if *has_in {
                assert(r@ =~= seq!['p', 'u', 'b', '(', 'i', 'n', ' '] + p@ + seq![')']);
            } else {
                assert(r@ =~= seq!['p', 'u', 'b', '('] + p@ + seq![')']);
            }
            r
        },
        Vis::Inherited => {
            let r: Vec<char> = Vec::new();
            assert(r@ =~= Seq::<char>::empty());
            r
        },
    }
}

fn copy_opt(o: &Option<Vec<char>>) -> (r: Option<Vec<char>>)
    ensures
        opt_view(r) == opt_view(*o),
{
    match o {
        Some(v) => Some(crate::text::copy_chars(v.as_slice())),
        None => None,
    }
}

/// A copy of a tree.
pub fn copy_node(n: &UseNode) -> (r: UseNode)
    ensures
        r@ == n@,
    decreases n, 0nat,
{
    match n {
        UseNode::Path { ident, child } => UseNode::Path {
            ident: crate::text::copy_chars(ident.as_slice()),
            child: Box::new(copy_node(child)),
        },
        UseNode::Name { ident, rename } => UseNode::Name {
            ident: crate::text::copy_chars(ident.as_slice()),
            rename: copy_opt(rename),
        },
        UseNode::Slf { rename } => UseNode::Slf { rename: copy_opt(rename) },
        UseNode::Glob => UseNode::Glob,
        UseNode::Group { items } => {
            proof {
                assert(decreases_to!(n => items));
            }
            UseNode::Group { items: copy_nodes(items) }
        },
    }
}

/// A copy of a list of trees.
pub fn copy_nodes(items: &Vec<UseNode>) -> (r: Vec<UseNode>)
    ensures
        trees_view(r@) == trees_view(items@),
    decreases items, 1nat,
{
    let mut r: Vec<UseNode> = Vec::new();
    let mut i: usize = 0;
    proof {
        lemma_trees_view_len(items@);
        lemma_trees_view_len(r@);
    }
    while i < items.len()
        invariant
            i <= items.len(),
            r@.len() == i,
            forall|k: int| 0 <= k < i ==> tree_view(#[trigger] r@[k]) == tree_view(items@[k]),
        decreases items.len() - i,
    {
        proof {
            assert(decreases_to!(items => items[i as int]));
        }
        let c = copy_node(&items[i]);
        r.push(c);
        i += 1;
    }
    proof {
        lemma_trees_view_len(items@);
        lemma_trees_view_ext(r@, trees_view(items@));
    }
    r
}

fn opt_eq(a: &Option<Vec<char>>, b: &Option<Vec<char>>) -> (r: bool)
    ensures
        r == (opt_view(*a) == opt_view(*b)),
{
    match (a, b) {
        (Some(x), Some(y)) => crate::lexis::chars_eq(x.as_slice(), y.as_slice()),
        (None, None) => true,
        _ => false,
    }
}

/// Structural equality of trees.
pub fn nodes_equal(a: &UseNode, b: &UseNode) -> (r: bool)
    ensures
        r == (a@ == b@),
    decreases a, 0nat,
{
    match (a, b) {
        (UseNode::Path { ident: i1, child: c1 }, UseNode::Path { ident: i2, child: c2 }) => {
            crate::lexis::chars_eq(i1.as_slice(), i2.as_slice()) && nodes_equal(c1, c2)
        },
        (UseNode::Name { ident: i1, rename: r1 }, UseNode::Name { ident: i2, rename: r2 }) => {
            crate::lexis::chars_eq(i1.as_slice(), i2.as_slice()) && opt_eq(r1, r2)
        },
        (UseNode::Slf { rename: r1 }, UseNode::Slf { rename: r2 }) => opt_eq(r1, r2),
        (UseNode::Glob, UseNode::Glob) => true,
        (UseNode::Group { items: x }, UseNode::Group { items: y }) => {
            proof {
                assert(decreases_to!(a => x));
            }
            lists_equal(x, y)
        },
        _ => false,
    }
}

fn lists_equal(x: &Vec<UseNode>, y: &Vec<UseNode>) -> (r: bool)
    ensures
        r == (trees_view(x@) == trees_view(y@)),
    decreases x, 1nat,
{
    proof {
        lemma_trees_view_len(x@);
        lemma_trees_view_len(y@);
    }
    if x.len() != y.len() {
        return false;
    }
    let mut i: usize = 0;
    while i < x.len()
        invariant
            x.len() == y.len(),
            i <= x.len(),
            trees_view(x@).len() == x.len(),
            trees_view(y@).len() == y.len(),
            forall|k: int| 0 <= k < x.len() ==> #[trigger] trees_view(x@)[k] == tree_view(x@[k]),
            forall|k: int| 0 <= k < y.len() ==> #[trigger] trees_view(y@)[k] == tree_view(y@[k]),
            forall|k: int| 0 <= k < i ==> tree_view(#[trigger] x@[k]) == tree_view(y@[k]),
        decreases x.len() - i,
    {
        proof {
            assert(decreases_to!(x => x[i as int]));
        }
        if !nodes_equal(&x[i], &y[i]) {
            assert(trees_view(x@)[i as int] != trees_view(y@)[i as int]);
            return false;
        }
        i += 1;
    }
    assert(trees_view(x@) =~= trees_view(y@));
    true
}

} // verus!
