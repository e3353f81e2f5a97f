//! Identifier uses (references) in a syntax tree.
use vstd::prelude::*;

use crate::position::Range;
use crate::symbols::Reference;
use crate::syntax::{node_range, node_to_range, SyntaxNode};
use crate::text::str_eq;

verus! {

/// A reference as plain values.
pub ghost struct SpecRef {
    pub name: Seq<char>,
    pub range: Range,
}

pub open spec fn refs_view(v: Seq<Reference>) -> Seq<SpecRef> {
    Seq::new(v.len(), |i: int| SpecRef { name: v[i].name@, range: v[i].range })
}

/// Every reference carries no document.
pub open spec fn no_uri(v: Seq<Reference>) -> bool {
    forall|i: int| 0 <= i < v.len() ==> (#[trigger] v[i]).uri is None
}

/// Parent kinds under which an identifier is being declared.
pub open spec fn is_declaring_parent(k: Seq<char>) -> bool {
    ||| k == "moduleProto"@
    ||| k == "functionType"@
    ||| k == "subFunctionType"@
    ||| k == "methodProto"@
    ||| k == "methodDef"@
    ||| k == "rule"@
    ||| k == "functionFormal"@
    ||| k == "subFunctionFormal"@
    ||| k == "methodFormal"@
    ||| k == "moduleFormalParam"@
    ||| k == "typedefEnumElement"@
    ||| k == "typedefEnum"@
    ||| k == "structMember"@
    ||| k == "unionMember"@
    ||| k == "exportItem"@
    ||| k == "forInit"@
    ||| k == "varDecl"@
    ||| k == "varDo"@
    ||| k == "varDeclDo"@
}

/// Whether an identifier with this parent and grandparent kind is a
/// declaration rather than a use: a declaring parent; an `lValue` of a
/// variable declaration, initialisation, binding, `for` initialiser or module
/// instance; a type name in a `typedef`; a typeclass name in its definition;
/// or a package name outside an import.
pub open spec fn is_declaration(parent: Option<Seq<char>>, gp: Option<Seq<char>>) -> bool {
    match parent {
        None => false,
        Some(p) => {
            ||| is_declaring_parent(p)
            ||| (p == "lValue"@ && gp is Some && (gp->0 == "varDecl"@ || gp->0 == "varInit"@
                || gp->0 == "varDo"@ || gp->0 == "forInit"@ || gp->0 == "moduleInst"@))
            ||| (p == "typeIde"@ && gp == Some("typeDefType"@))
            ||| (p == "typeclassIde"@ && gp == Some("typeclassDef"@))
            ||| (p == "packageIde"@ && gp is Some && gp->0 != "importItem"@)
        },
    }
}

/// The references of the tree `n`, in pre-order; `parent` and `gp` are the
/// kinds of `n`'s parent and grandparent.
pub open spec fn refs_of(n: SyntaxNode, parent: Option<Seq<char>>, gp: Option<Seq<char>>) -> Seq<
    SpecRef,
>
    decreases n,
{
    if n.kind@ == "identifier"@ {
        if !is_declaration(parent, gp) && n.text@.len() > 0 {
            seq![SpecRef { name: n.text@, range: node_range(n) }]
        } else {
            seq![]
        }
    } else {
        refs_in(n.children@, Some(n.kind@), parent)
    }
}

pub open spec fn refs_in(s: Seq<SyntaxNode>, parent: Option<Seq<char>>, gp: Option<Seq<char>>) -> Seq<
    SpecRef,
>
    decreases s,
{
    if s.len() == 0 {
        seq![]
    } else {
        refs_of(s[0], parent, gp) + refs_in(s.drop_first(), parent, gp)
    }
}

/// `a` comes no later than `b` in code-point order.
pub open spec fn text_le(a: Seq<char>, b: Seq<char>) -> bool
    decreases a.len(),
{
    if a.len() == 0 {
        true
    } else if b.len() == 0 {
        false
    } else if a[0] != b[0] {
        (a[0] as u32) < (b[0] as u32)
    } else {
        text_le(a.drop_first(), b.drop_first())
    }
}

/// References ordered by start line, start column, then name.
pub open spec fn ref_le(a: SpecRef, b: SpecRef) -> bool {
    ||| a.range.start.line < b.range.start.line
    ||| (a.range.start.line == b.range.start.line && a.range.start.character
        < b.range.start.character)
    ||| (a.range.start.line == b.range.start.line && a.range.start.character
        == b.range.start.character && text_le(a.name, b.name))
}

pub open spec fn insert_ref(sorted: Seq<SpecRef>, x: SpecRef) -> Seq<SpecRef>
    decreases sorted.len(),
{
    if sorted.len() == 0 {
        seq![x]
    } else if ref_le(sorted.last(), x) {
        sorted.push(x)
    } else {
        insert_ref(sorted.drop_last(), x).push(sorted.last())
    }
}

/// `s` sorted by position and name, keeping the order of equal keys.
pub open spec fn sort_refs(s: Seq<SpecRef>) -> Seq<SpecRef>
    decreases s.len(),
{
    if s.len() == 0 {
        seq![]
    } else {
        insert_ref(sort_refs(s.drop_last()), s.last())
    }
}

/// `s` with each reference dropped that repeats the range and name of the
/// one kept before it.
pub open spec fn dedup_refs(s: Seq<SpecRef>) -> Seq<SpecRef>
    decreases s.len(),
{
    if s.len() == 0 {
        seq![]
    } else {
        let d = dedup_refs(s.drop_last());
        if d.len() > 0 && d.last().range == s.last().range && d.last().name == s.last().name {
            d
        } else {
            d.push(s.last())
        }
    }
}

/// The references of a document's tree: every identifier that is not being
/// declared, sorted by position and name, each position and name once.
pub open spec fn references_of(tree: SyntaxNode) -> Seq<SpecRef> {
    dedup_refs(sort_refs(refs_of(tree, None, None)))
}

fn is_declaring_parent_exec(k: &str) -> (b: bool)
    ensures
        b == is_declaring_parent(k@),
{
    str_eq(k, "moduleProto") || str_eq(k, "functionType") || str_eq(k, "subFunctionType")
        || str_eq(k, "methodProto") || str_eq(k, "methodDef") || str_eq(k, "rule") || str_eq(
        k,
        "functionFormal",
    ) || str_eq(k, "subFunctionFormal") || str_eq(k, "methodFormal") || str_eq(
        k,
        "moduleFormalParam",
    ) || str_eq(k, "typedefEnumElement") || str_eq(k, "typedefEnum") || str_eq(k, "structMember")
        || str_eq(k, "unionMember") || str_eq(k, "exportItem") || str_eq(k, "forInit") || str_eq(
        k,
        "varDecl",
    ) || str_eq(k, "varDo") || str_eq(k, "varDeclDo")
}

pub open spec fn opt_view(o: Option<&str>) -> Option<Seq<char>> {
    match o {
        Some(s) => Some(s@),
        None => None,
    }
}

/// Whether an identifier under a parent and grandparent of these kinds is a
/// declaration.
fn is_declaration_context(parent: Option<&str>, gp: Option<&str>) -> (b: bool)
    ensures
        b == is_declaration(opt_view(parent), opt_view(gp)),
{
    let p = match parent {
        Some(p) => p,
        None => return false,
    };
    if is_declaring_parent_exec(p) {
        return true;
    }
    if str_eq(p, "lValue") {
        if let Some(g) = gp {
            if str_eq(g, "varDecl") || str_eq(g, "varInit") || str_eq(g, "varDo") || str_eq(
                g,
                "forInit",
            ) || str_eq(g, "moduleInst") {
                return true;
            }
        }
    }
    if str_eq(p, "typeIde") {
        if let Some(g) = gp {
            if str_eq(g, "typeDefType") {
                return true;
            }
        }
    }
    if str_eq(p, "typeclassIde") {
        if let Some(g) = gp {
            if str_eq(g, "typeclassDef") {
                return true;
            }
        }
    }
    if str_eq(p, "packageIde") {
        if let Some(g) = gp {
            if !str_eq(g, "importItem") {
                return true;
            }
        }
    }
    false
}

/// Adds the references of the tree `n` to `refs`.
fn collect_references(
    n: &SyntaxNode,
    parent: Option<&str>,
    gp: Option<&str>,
    refs: &mut Vec<Reference>,
)
    requires
        no_uri(old(refs)@),
    ensures
        refs_view(final(refs)@) == refs_view(old(refs)@) + refs_of(*n, opt_view(parent), opt_view(gp)),
        no_uri(final(refs)@),
    decreases n,
{
    let ghost r0 = refs_view(refs@);
    if str_eq(n.kind.as_str(), "identifier") {
        if !is_declaration_context(parent, gp) && !n.text.as_str().is_empty() {
            let r = Reference { name: n.text.clone(), range: node_to_range(n), uri: None };
            let ghost old_refs = refs@;
            refs.push(r);
            proof {
                assert(refs_view(refs@) =~= r0 + refs_of(*n, opt_view(parent), opt_view(gp)));
                assert forall|i: int| 0 <= i < refs@.len() implies (#[trigger] refs@[i]).uri is None by {
                    if i < old_refs.len() {
                        assert(refs@[i] == old_refs[i]);
                    }
                }
            }
        } else {
            assert(refs_view(refs@) =~= r0 + refs_of(*n, opt_view(parent), opt_view(gp)));
        }
        return;
    }
    let kind = n.kind.as_str();
    let mut i: usize = 0;
    assert(n.children@.skip(0) =~= n.children@);
    while i < n.children.len()
        invariant
            i <= n.children@.len(),
            kind@ == n.kind@,
            no_uri(refs@),
            refs_view(refs@) + refs_in(n.children@.skip(i as int), Some(n.kind@), opt_view(parent))
                == r0 + refs_in(n.children@, Some(n.kind@), opt_view(parent)),
        decreases n.children@.len() - i,
    {
        proof {
            assert(n.children@.skip(i as int)[0] == n.children@[i as int]);
            assert(n.children@.skip(i as int).drop_first() =~= n.children@.skip(i + 1));
        }
        let ghost before = refs_view(refs@);
        collect_references(&n.children[i], Some(kind), parent, refs);
        proof {
            assert(refs_view(refs@) + refs_in(n.children@.skip(i + 1), Some(n.kind@), opt_view(parent))
                =~= before + refs_in(n.children@.skip(i as int), Some(n.kind@), opt_view(parent)));
        }
        i = i + 1;
    }
    proof {
        assert(n.children@.skip(i as int) =~= Seq::<SyntaxNode>::empty());
        assert(refs_view(refs@) + Seq::<SpecRef>::empty() =~= refs_view(refs@));
    }
}

/// Whether `a` comes no later than `b` in code-point order.
pub fn text_le_exec(a: &[char], b: &[char]) -> (r: bool)
    ensures
        r == text_le(a@, b@),
{
    let mut i: usize = 0;
    proof {
        assert(a@.skip(0) =~= a@);
        assert(b@.skip(0) =~= b@);
    }
    while i < a.len() && i < b.len() && a[i] == b[i]
        invariant
            i <= a@.len(),
            i <= b@.len(),
            text_le(a@, b@) == text_le(a@.skip(i as int), b@.skip(i as int)),
        decreases a@.len() - i,
    {
        proof {
            assert(a@.skip(i as int).drop_first() =~= a@.skip(i + 1));
            assert(b@.skip(i as int).drop_first() =~= b@.skip(i + 1));
        }
        i = i + 1;
    }
    proof {
        if i < a@.len() {
            assert(a@.skip(i as int)[0] == a@[i as int]);
        }
        if i < b@.len() {
            assert(b@.skip(i as int)[0] == b@[i as int]);
        }
    }
    if i == a.len() {
        true
    } else if i == b.len() {
        false
    } else {
        (a[i] as u32) < (b[i] as u32)
    }
}

fn ref_le_exec(a: &Reference, b: &Reference) -> (r: bool)
    ensures
        r == ref_le(
            SpecRef { name: a.name@, range: a.range },
            SpecRef { name: b.name@, range: b.range },
        ),
{
    if a.range.start.line < b.range.start.line {
        return true;
    }
    if a.range.start.line == b.range.start.line && a.range.start.character
        < b.range.start.character {
        return true;
    }
    if a.range.start.line == b.range.start.line && a.range.start.character
        == b.range.start.character {
        let an = crate::text::chars_of(a.name.as_str());
        let bn = crate::text::chars_of(b.name.as_str());
        return text_le_exec(&an, &bn);
    }
    false
}

proof fn lemma_insert_ref(sorted: Seq<SpecRef>, x: SpecRef, j: int)
    requires
        0 <= j <= sorted.len(),
        forall|k: int| j <= k < sorted.len() ==> !ref_le(#[trigger] sorted[k], x),
        j == 0 || ref_le(sorted[j - 1], x),
    ensures
        insert_ref(sorted, x) == sorted.take(j).push(x) + sorted.skip(j),
    decreases sorted.len(),
{
    if sorted.len() == 0 {
        assert(sorted.take(j).push(x) + sorted.skip(j) =~= seq![x]);
    } else if j == sorted.len() {
        assert(sorted.take(j) =~= sorted);
        assert(sorted.take(j).push(x) + sorted.skip(j) =~= sorted.push(x));
    } else {
        let d = sorted.drop_last();
        assert(!ref_le(sorted[sorted.len() - 1], x));
        lemma_insert_ref(d, x, j);
        assert(d.take(j) =~= sorted.take(j));
        assert((d.take(j).push(x) + d.skip(j)).push(sorted.last()) =~= sorted.take(j).push(x)
            + sorted.skip(j));
    }
}

/// Sorts references by position and name, keeping the order of equal keys.
fn sort_references(v: Vec<Reference>) -> (r: Vec<Reference>)
    requires
        no_uri(v@),
    ensures
        refs_view(r@) == sort_refs(refs_view(v@)),
        no_uri(r@),
{
    let ghost whole = refs_view(v@);
    let mut out: Vec<Reference> = Vec::new();
    let mut v = v;
    let ghost mut k: int = 0;
    assert(whole.take(0) =~= Seq::<SpecRef>::empty());
    assert(whole.skip(0) =~= whole);
    while v.len() > 0
        invariant
            0 <= k <= whole.len(),
            no_uri(v@),
            no_uri(out@),
            refs_view(v@) == whole.skip(k),
            refs_view(out@) == sort_refs(whole.take(k)),
        decreases v@.len(),
    {
        let ghost v0 = v@;
        let x = v.remove(0);
        proof {
            assert(refs_view(v0).len() == v0.len());
            assert(k < whole.len());
            assert(refs_view(v0)[0] == whole.skip(k)[0]);
            assert forall|i: int| 0 <= i < v@.len() implies #[trigger] refs_view(v@)[i] == whole.skip(
                k + 1,
            )[i] by {
                assert(v@[i] == v0[i + 1]);
                assert(refs_view(v0)[i + 1] == whole.skip(k)[i + 1]);
            }
            assert(refs_view(v@) =~= whole.skip(k + 1));
            assert(x.uri is None);
            assert forall|i: int| 0 <= i < v@.len() implies (#[trigger] v@[i]).uri is None by {
                assert(v@[i] == v0[i + 1]);
            }
            assert(whole.take(k + 1).drop_last() =~= whole.take(k));
        }
        let mut j = out.len();
        while j > 0 && !ref_le_exec(&out[j - 1], &x)
            invariant
                j <= out@.len(),
                forall|q: int|
                    j <= q < out@.len() ==> !ref_le(
                        #[trigger] refs_view(out@)[q],
                        SpecRef { name: x.name@, range: x.range },
                    ),
            decreases j,
        {
            j = j - 1;
        }
        let ghost o = refs_view(out@);
        let ghost ov = out@;
        let ghost xv = SpecRef { name: x.name@, range: x.range };
        assert(whole.take(k + 1).last() == xv);
        out.insert(j, x);
        proof {
            lemma_insert_ref(o, xv, j as int);
            assert(refs_view(out@) =~= o.take(j as int).push(xv) + o.skip(j as int));
            assert forall|i: int| 0 <= i < out@.len() implies (#[trigger] out@[i]).uri is None by {
                if i < j {
                    assert(out@[i] == ov[i]);
                } else if i > j {
                    assert(out@[i] == ov[i - 1]);
                }
            }
            k = k + 1;
        }
    }
    proof {
        assert(whole.take(k) =~= whole);
    }
    out
}

/// Drops each reference that repeats the range and name of the one before.
fn dedup_references(v: Vec<Reference>) -> (r: Vec<Reference>)
    requires
        no_uri(v@),
    ensures
        refs_view(r@) == dedup_refs(refs_view(v@)),
        no_uri(r@),
{
    let ghost whole = refs_view(v@);
    let mut out: Vec<Reference> = Vec::new();
    let mut v = v;
    let ghost mut k: int = 0;
    assert(whole.take(0) =~= Seq::<SpecRef>::empty());
    assert(whole.skip(0) =~= whole);
    while v.len() > 0
        invariant
            0 <= k <= whole.len(),
            no_uri(v@),
            no_uri(out@),
            refs_view(v@) == whole.skip(k),
            refs_view(out@) == dedup_refs(whole.take(k)),
        decreases v@.len(),
    {
        let ghost v0 = v@;
        let x = v.remove(0);
        proof {
            assert(refs_view(v0).len() == v0.len());
            assert(k < whole.len());
            assert(refs_view(v0)[0] == whole.skip(k)[0]);
            assert forall|i: int| 0 <= i < v@.len() implies #[trigger] refs_view(v@)[i] == whole.skip(
                k + 1,
            )[i] by {
                assert(v@[i] == v0[i + 1]);
                assert(refs_view(v0)[i + 1] == whole.skip(k)[i + 1]);
            }
            assert(refs_view(v@) =~= whole.skip(k + 1));
            assert forall|i: int| 0 <= i < v@.len() implies (#[trigger] v@[i]).uri is None by {
                assert(v@[i] == v0[i + 1]);
            }
            assert(whole.take(k + 1).drop_last() =~= whole.take(k));
            assert(whole.take(k + 1).last() == whole.skip(k)[0]);
        }
        let n = out.len();
        let same = n > 0 && out[n - 1].range == x.range && crate::text::str_eq(
            out[n - 1].name.as_str(),
            x.name.as_str(),
        );
        if !same {
            let ghost ov = out@;
            out.push(x);
            proof {
                assert(refs_view(out@) =~= refs_view(ov).push(whole.skip(k)[0]));
                assert forall|i: int| 0 <= i < out@.len() implies (#[trigger] out@[i]).uri is None by {
                    if i < ov.len() {
                        assert(out@[i] == ov[i]);
                    }
                }
            }
        }
        proof {
            k = k + 1;
        }
    }
    proof {
        assert(whole.take(k) =~= whole);
    }
    out
}

/// The references of a document's tree: every identifier that is not being
/// declared (by its parent and grandparent kinds), sorted by position and
/// name, each position and name once. No reference carries a document.
pub fn extract_references(tree: &SyntaxNode) -> (r: Vec<Reference>)
    ensures
        refs_view(r@) == references_of(*tree),
        no_uri(r@),
{
    let mut refs: Vec<Reference> = Vec::new();
    collect_references(tree, None, None, &mut refs);
    assert(refs_view(Seq::<Reference>::empty()) + refs_of(*tree, None, None) =~= refs_of(
        *tree,
        None,
        None,
    ));
    let sorted = sort_references(refs);
    dedup_references(sorted)
}

/// Code-point order is total.
pub proof fn lemma_text_le_total(a: Seq<char>, b: Seq<char>)
    ensures
        text_le(a, b) || text_le(b, a),
    decreases a.len(),
{
    if a.len() > 0 && b.len() > 0 {
        if a[0] == b[0] {
            lemma_text_le_total(a.drop_first(), b.drop_first());
        } else {
            vstd::utf8::char_u32_cast(a[0], a[0] as u32);
            vstd::utf8::char_u32_cast(b[0], b[0] as u32);
        }
    }
}

/// Code-point order is transitive.
pub proof fn lemma_text_le_trans(a: Seq<char>, b: Seq<char>, c: Seq<char>)
    requires
        text_le(a, b),
        text_le(b, c),
    ensures
        text_le(a, c),
    decreases a.len(),
{
    if a.len() > 0 && b.len() > 0 && c.len() > 0 && a[0] == b[0] && b[0] == c[0] {
        lemma_text_le_trans(a.drop_first(), b.drop_first(), c.drop_first());
    }
}

/// Two texts each no later than the other are equal.
pub proof fn lemma_text_le_antisym(a: Seq<char>, b: Seq<char>)
    requires
        text_le(a, b),
        text_le(b, a),
    ensures
        a == b,
    decreases a.len(),
{
    if a.len() == 0 {
        assert(b.len() == 0);
        assert(a =~= b);
    } else {
        lemma_text_le_antisym(a.drop_first(), b.drop_first());
        assert(a =~= seq![a[0]] + a.drop_first());
        assert(b =~= seq![b[0]] + b.drop_first());
    }
}

/// Code-point order is reflexive.
pub proof fn lemma_text_le_refl(a: Seq<char>)
    ensures
        text_le(a, a),
    decreases a.len(),
{
    if a.len() > 0 {
        lemma_text_le_refl(a.drop_first());
    }
}

proof fn lemma_ref_le_total(a: SpecRef, b: SpecRef)
    ensures
        ref_le(a, b) || ref_le(b, a),
{
    lemma_text_le_total(a.name, b.name);
}

proof fn lemma_ref_le_trans(a: SpecRef, b: SpecRef, c: SpecRef)
    requires
        ref_le(a, b),
        ref_le(b, c),
    ensures
        ref_le(a, c),
{
    if a.range.start == b.range.start && b.range.start == c.range.start {
        lemma_text_le_trans(a.name, b.name, c.name);
    }
}

/// References ordered by position, then name.
pub open spec fn sorted_refs(s: Seq<SpecRef>) -> bool {
    forall|i: int, j: int| 0 <= i < j < s.len() ==> ref_le(s[i], s[j])
}

proof fn lemma_insert_ref_bounded(sorted: Seq<SpecRef>, x: SpecRef, b: SpecRef)
    requires
        forall|k: int| 0 <= k < sorted.len() ==> ref_le(sorted[k], b),
        ref_le(x, b),
    ensures
        forall|k: int| 0 <= k < insert_ref(sorted, x).len() ==> ref_le(insert_ref(sorted, x)[k], b),
        insert_ref(sorted, x).len() == sorted.len() + 1,
    decreases sorted.len(),
{
    if sorted.len() > 0 && !ref_le(sorted.last(), x) {
        lemma_insert_ref_bounded(sorted.drop_last(), x, b);
    }
}

proof fn lemma_insert_ref_sorted(sorted: Seq<SpecRef>, x: SpecRef)
    requires
        sorted_refs(sorted),
    ensures
        sorted_refs(insert_ref(sorted, x)),
    decreases sorted.len(),
{
    if sorted.len() == 0 {
    } else if ref_le(sorted.last(), x) {
        let r = sorted.push(x);
        assert forall|i: int, j: int| 0 <= i < j < r.len() implies ref_le(r[i], r[j]) by {
            if j == sorted.len() {
                if i < sorted.len() - 1 {
                    lemma_ref_le_trans(sorted[i], sorted.last(), x);
                }
            }
        }
    } else {
        let d = sorted.drop_last();
        let last = sorted.last();
        lemma_ref_le_total(last, x);
        lemma_insert_ref_sorted(d, x);
        assert forall|k: int| 0 <= k < d.len() implies ref_le(d[k], last) by {}
        lemma_insert_ref_bounded(d, x, last);
        let r = insert_ref(d, x);
        assert forall|i: int, j: int| 0 <= i < j < r.push(last).len() implies ref_le(
            r.push(last)[i],
            r.push(last)[j],
        ) by {
            if j == r.len() {
                assert(ref_le(r[i], last));
            } else {
                assert(r.push(last)[i] == r[i]);
                assert(r.push(last)[j] == r[j]);
            }
        }
    }
}

proof fn lemma_sort_refs_sorted(s: Seq<SpecRef>)
    ensures
        sorted_refs(sort_refs(s)),
    decreases s.len(),
{
    if s.len() > 0 {
        lemma_sort_refs_sorted(s.drop_last());
        lemma_insert_ref_sorted(sort_refs(s.drop_last()), s.last());
    }
}

proof fn lemma_dedup_refs(s: Seq<SpecRef>)
    requires
        sorted_refs(s),
    ensures
        sorted_refs(dedup_refs(s)),
        s.len() > 0 ==> dedup_refs(s).len() > 0 && dedup_refs(s).last() == s.last(),
        forall|k: int|
            #![trigger dedup_refs(s)[k]]
            0 <= k < dedup_refs(s).len() ==> exists|j: int|
                #![trigger s[j]]
                0 <= j < s.len() && dedup_refs(s)[k] == s[j],
        forall|i: int, j: int|
            #![trigger dedup_refs(s)[i], dedup_refs(s)[j]]
            0 <= i && j == i + 1 && j < dedup_refs(s).len() ==> dedup_refs(s)[i] != dedup_refs(s)[j],
    decreases s.len(),
{
    if s.len() > 0 {
        let t = s.drop_last();
        assert(sorted_refs(t));
        lemma_dedup_refs(t);
        let d = dedup_refs(t);
        let x = s.last();
        if d.len() > 0 && d.last().range == x.range && d.last().name == x.name {
            assert(d.last() == x);
            assert forall|k: int| #![trigger d[k]] 0 <= k < d.len() implies exists|j: int|
                #![trigger s[j]]
                0 <= j < s.len() && d[k] == s[j] by {
                let j = choose|j: int| #![trigger t[j]] 0 <= j < t.len() && d[k] == t[j];
                assert(s[j] == t[j]);
            }
        } else {
            let r = d.push(x);
            assert forall|k: int| #![trigger r[k]] 0 <= k < r.len() implies exists|j: int|
                #![trigger s[j]]
                0 <= j < s.len() && r[k] == s[j] by {
                if k < d.len() {
                    let j = choose|j: int| #![trigger t[j]] 0 <= j < t.len() && d[k] == t[j];
                    assert(s[j] == t[j]);
                    assert(r[k] == d[k]);
                } else {
                    assert(r[k] == s[s.len() - 1]);
                }
            }
            assert forall|i: int, j: int| 0 <= i < j < r.len() implies ref_le(r[i], r[j]) by {
                if j == d.len() {
                    let ji = choose|ji: int| #![trigger t[ji]] 0 <= ji < t.len() && d[i] == t[ji];
                    assert(s[ji] == d[i]);
                    assert(ref_le(s[ji], s[s.len() - 1]));
                } else {
                    assert(r[i] == d[i]);
                    assert(r[j] == d[j]);
                }
            }
            assert forall|i: int, j: int| #![trigger r[i], r[j]] 0 <= i && j == i + 1 && j < r.len()
                implies r[i] != r[j] by {
                assert(r[i] == d[i]);
                if j == d.len() {
                    assert(r[i] == d.last());
                } else {
                    assert(r[j] == d[j]);
                }
            }
        }
    }
}

/// The references of a document come ordered by position, then name, and
/// no reference repeats the one before it.
pub proof fn references_sorted_without_repeats(tree: SyntaxNode)
    ensures
        sorted_refs(references_of(tree)),
        forall|i: int, j: int|
            #![trigger references_of(tree)[i], references_of(tree)[j]]
            0 <= i && j == i + 1 && j < references_of(tree).len() ==> references_of(tree)[i]
                != references_of(tree)[j],
{
    let s = sort_refs(refs_of(tree, None, None));
    lemma_sort_refs_sorted(refs_of(tree, None, None));
    lemma_dedup_refs(s);
}

proof fn lemma_refs_named(n: SyntaxNode, parent: Option<Seq<char>>, gp: Option<Seq<char>>)
    ensures
        forall|k: int|
            0 <= k < refs_of(n, parent, gp).len() ==> (#[trigger] refs_of(n, parent, gp)[k]).name.len()
                > 0,
    decreases n,
{
    if n.kind@ != "identifier"@ {
        lemma_refs_in_named(n.children@, Some(n.kind@), parent);
        assert(refs_of(n, parent, gp) == refs_in(n.children@, Some(n.kind@), parent));
    } else if !is_declaration(parent, gp) && n.text@.len() > 0 {
        let r = refs_of(n, parent, gp);
        assert(r == seq![SpecRef { name: n.text@, range: node_range(n) }]);
        assert forall|k: int| 0 <= k < r.len() implies (#[trigger] r[k]).name.len() > 0 by {
            assert(k == 0);
        }
    } else {
        assert(refs_of(n, parent, gp).len() == 0);
    }
}

proof fn lemma_refs_in_named(s: Seq<SyntaxNode>, parent: Option<Seq<char>>, gp: Option<Seq<char>>)
    ensures
        forall|k: int|
            0 <= k < refs_in(s, parent, gp).len() ==> (#[trigger] refs_in(s, parent, gp)[k]).name.len()
                > 0,
    decreases s,
{
    if s.len() > 0 {
        lemma_refs_named(s[0], parent, gp);
        lemma_refs_in_named(s.drop_first(), parent, gp);
        let a = refs_of(s[0], parent, gp);
        let b = refs_in(s.drop_first(), parent, gp);
        assert forall|k: int| 0 <= k < (a + b).len() implies (#[trigger] (a + b)[k]).name.len() > 0 by {
            if k < a.len() {
                assert((a + b)[k] == a[k]);
            } else {
                assert((a + b)[k] == b[k - a.len()]);
            }
        }
    }
}

proof fn lemma_insert_ref_members(sorted: Seq<SpecRef>, x: SpecRef)
    ensures
        forall|y: SpecRef| #[trigger] insert_ref(sorted, x).contains(y) ==> y == x || sorted.contains(y),
    decreases sorted.len(),
{
    if sorted.len() > 0 && !ref_le(sorted.last(), x) {
        let d = sorted.drop_last();
        lemma_insert_ref_members(d, x);
        let r = insert_ref(d, x);
        assert forall|y: SpecRef| #[trigger] r.push(sorted.last()).contains(y) implies y == x
            || sorted.contains(y) by {
            let k = choose|k: int| 0 <= k < r.push(sorted.last()).len() && r.push(sorted.last())[k] == y;
            if k < r.len() {
                assert(r.push(sorted.last())[k] == r[k]);
                assert(r.contains(y));
                if y != x {
                    let j = choose|j: int| 0 <= j < d.len() && d[j] == y;
                    assert(sorted[j] == d[j]);
                }
            } else {
                assert(sorted[sorted.len() - 1] == y);
            }
        }
    } else if sorted.len() > 0 {
        assert forall|y: SpecRef| #[trigger] sorted.push(x).contains(y) implies y == x
            || sorted.contains(y) by {
            let k = choose|k: int| 0 <= k < sorted.push(x).len() && sorted.push(x)[k] == y;
            if k < sorted.len() {
                assert(sorted[k] == y);
            }
        }
    } else {
        assert forall|y: SpecRef| #[trigger] seq![x].contains(y) implies y == x || sorted.contains(y) by {
            let k = choose|k: int| 0 <= k < seq![x].len() && seq![x][k] == y;
        }
    }
}

proof fn lemma_sort_refs_members(s: Seq<SpecRef>)
    ensures
        forall|y: SpecRef| #[trigger] sort_refs(s).contains(y) ==> s.contains(y),
    decreases s.len(),
{
    if s.len() > 0 {
        let d = s.drop_last();
        lemma_sort_refs_members(d);
        lemma_insert_ref_members(sort_refs(d), s.last());
        assert forall|y: SpecRef| #[trigger] sort_refs(s).contains(y) implies s.contains(y) by {
            if y == s.last() {
                assert(s[s.len() - 1] == y);
            } else {
                assert(sort_refs(d).contains(y));
                let j = choose|j: int| 0 <= j < d.len() && d[j] == y;
                assert(s[j] == d[j]);
            }
        }
    }
}

/// A node of a tree with the kinds of its parent and grandparent.
pub type NodeInContext = (SyntaxNode, Option<Seq<char>>, Option<Seq<char>>);

/// The nodes of the tree `n`, in pre-order, each with the kinds of its
/// parent and grandparent (`parent` and `gp` for `n` itself).
pub open spec fn nodes_in_context(n: SyntaxNode, parent: Option<Seq<char>>, gp: Option<Seq<char>>) -> Seq<
    NodeInContext,
>
    decreases n,
{
    seq![(n, parent, gp)] + nodes_in_context_in(n.children@, Some(n.kind@), parent)
}

pub open spec fn nodes_in_context_in(
    s: Seq<SyntaxNode>,
    parent: Option<Seq<char>>,
    gp: Option<Seq<char>>,
) -> Seq<NodeInContext>
    decreases s,
{
    if s.len() == 0 {
        seq![]
    } else {
        nodes_in_context(s[0], parent, gp) + nodes_in_context_in(s.drop_first(), parent, gp)
    }
}

/// `r` is the text and range of the identifier node `e.0`, which its parent
/// and grandparent kinds `e.1` and `e.2` do not make a declaration.
pub open spec fn is_identifier_use(e: NodeInContext, r: SpecRef) -> bool {
    &&& e.0.kind@ == "identifier"@
    &&& !is_declaration(e.1, e.2)
    &&& r == SpecRef { name: e.0.text@, range: node_range(e.0) }
}

/// Some node of `c` is an identifier use whose text and range are `r`.
pub open spec fn has_use(c: Seq<NodeInContext>, r: SpecRef) -> bool {
    exists|j: int| 0 <= j < c.len() && is_identifier_use(#[trigger] c[j], r)
}

proof fn lemma_has_use_concat(a: Seq<NodeInContext>, b: Seq<NodeInContext>, r: SpecRef)
    requires
        has_use(a, r) || has_use(b, r),
    ensures
        has_use(a + b, r),
{
    if has_use(a, r) {
        let j = choose|j: int| 0 <= j < a.len() && is_identifier_use(#[trigger] a[j], r);
        assert((a + b)[j] == a[j]);
    } else {
        let j = choose|j: int| 0 <= j < b.len() && is_identifier_use(#[trigger] b[j], r);
        assert((a + b)[a.len() + j] == b[j]);
    }
}

proof fn lemma_refs_are_uses(n: SyntaxNode, parent: Option<Seq<char>>, gp: Option<Seq<char>>)
    ensures
        forall|k: int|
            0 <= k < refs_of(n, parent, gp).len() ==> has_use(
                nodes_in_context(n, parent, gp),
                #[trigger] refs_of(n, parent, gp)[k],
            ),
    decreases n,
{
    let head: Seq<NodeInContext> = seq![(n, parent, gp)];
    let inner = nodes_in_context_in(n.children@, Some(n.kind@), parent);
    let r = refs_of(n, parent, gp);
    if n.kind@ != "identifier"@ {
        lemma_refs_in_are_uses(n.children@, Some(n.kind@), parent);
        assert(r == refs_in(n.children@, Some(n.kind@), parent));
        assert forall|k: int| 0 <= k < r.len() implies has_use(
            nodes_in_context(n, parent, gp),
            #[trigger] r[k],
        ) by {
            lemma_has_use_concat(head, inner, r[k]);
        }
    } else if !is_declaration(parent, gp) && n.text@.len() > 0 {
        assert forall|k: int| 0 <= k < r.len() implies has_use(
            nodes_in_context(n, parent, gp),
            #[trigger] r[k],
        ) by {
            assert(k == 0);
            assert(is_identifier_use(head[0], r[0]));
            lemma_has_use_concat(head, inner, r[k]);
        }
    } else {
        assert(r.len() == 0);
    }
}

proof fn lemma_refs_in_are_uses(s: Seq<SyntaxNode>, parent: Option<Seq<char>>, gp: Option<Seq<char>>)
    ensures
        forall|k: int|
            0 <= k < refs_in(s, parent, gp).len() ==> has_use(
                nodes_in_context_in(s, parent, gp),
                #[trigger] refs_in(s, parent, gp)[k],
            ),
    decreases s,
{
    if s.len() > 0 {
        lemma_refs_are_uses(s[0], parent, gp);
        lemma_refs_in_are_uses(s.drop_first(), parent, gp);
        let a = refs_of(s[0], parent, gp);
        let b = refs_in(s.drop_first(), parent, gp);
        let ca = nodes_in_context(s[0], parent, gp);
        let cb = nodes_in_context_in(s.drop_first(), parent, gp);
        assert(refs_in(s, parent, gp) == a + b);
        assert(nodes_in_context_in(s, parent, gp) == ca + cb);
        assert forall|k: int| 0 <= k < (a + b).len() implies has_use(
            ca + cb,
            #[trigger] (a + b)[k],
        ) by {
            if k < a.len() {
                assert((a + b)[k] == a[k]);
                assert(has_use(ca, a[k]));
            } else {
                assert((a + b)[k] == b[k - a.len()]);
                assert(has_use(cb, b[k - a.len()]));
            }
            lemma_has_use_concat(ca, cb, (a + b)[k]);
        }
    } else {
        assert(refs_in(s, parent, gp) =~= Seq::<SpecRef>::empty());
    }
}

/// Every reference of a document is the text and range of an identifier
/// node of its tree that its parent and grandparent do not make a
/// declaration, and has a name.
pub proof fn references_are_identifier_uses(tree: SyntaxNode)
    ensures
        forall|k: int|
            0 <= k < references_of(tree).len() ==> has_use(
                nodes_in_context(tree, None, None),
                #[trigger] references_of(tree)[k],
            ) && references_of(tree)[k].name.len() > 0,
{
    let w = refs_of(tree, None, None);
    let s = sort_refs(w);
    let c = nodes_in_context(tree, None, None);
    lemma_sort_refs_sorted(w);
    lemma_dedup_refs(s);
    lemma_sort_refs_members(w);
    lemma_refs_named(tree, None, None);
    lemma_refs_are_uses(tree, None, None);
    assert forall|k: int| 0 <= k < references_of(tree).len() implies has_use(
        c,
        #[trigger] references_of(tree)[k],
    ) && references_of(tree)[k].name.len() > 0 by {
        let j = choose|j: int| #![trigger s[j]] 0 <= j < s.len() && references_of(tree)[k] == s[j];
        assert(s.contains(s[j]));
        let m = choose|m: int| 0 <= m < w.len() && w[m] == s[j];
        assert(w[m].name.len() > 0);
        assert(has_use(c, w[m]));
    }
}

} // verus!
