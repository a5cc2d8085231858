use crate::parser::{
    spec_bloc, spec_document, spec_element, spec_items, spec_key_value, spec_primitive,
    ElementView, ParseError,
};
use crate::token::{PrimitiveView, TokenView};
use vstd::prelude::*;

verus! {

/// The tokens that write a tree in the grammar's concrete syntax.
pub open spec fn render(e: ElementView) -> Seq<TokenView>
    decreases e, 0int,
{
    match e {
        ElementView::Primitive(p) => seq![TokenView::Literal(p)],
        ElementView::KeyValue(k, v) => seq![
            TokenView::Literal(PrimitiveView::Str(k)),
            TokenView::Equal,
        ] + render(*v),
        ElementView::Bloc(items) => seq![TokenView::Lpar] + render_items(items, 0) + seq![
            TokenView::Rpar,
        ],
    }
}

/// The items of a block from the `k`-th on, separated by `;`.
pub open spec fn render_items(items: Seq<ElementView>, k: int) -> Seq<TokenView>
    decreases items, items.len() - k,
{
    if 0 <= k < items.len() {
        if k + 1 == items.len() {
            render(items[k])
        } else {
            render(items[k]) + seq![TokenView::Semicolumn] + render_items(items, k + 1)
        }
    } else {
        seq![]
    }
}

/// A tree that the grammar can produce: the value of every key is a
/// literal or a block.
pub open spec fn well_formed(e: ElementView) -> bool
    decreases e,
{
    match e {
        ElementView::Primitive(_) => true,
        ElementView::KeyValue(_, v) => (*v is Primitive || *v is Bloc) && well_formed(*v),
        ElementView::Bloc(items) => forall|k: int|
            0 <= k < items.len() ==> well_formed(#[trigger] items[k]),
    }
}

/// `r` stands in `t` from position `i` on.
pub open spec fn occurs_at(t: Seq<TokenView>, i: int, r: Seq<TokenView>) -> bool {
    0 <= i && i + r.len() <= t.len() && forall|k: int| 0 <= k < r.len() ==> t[i + k] == r[k]
}

/// Position `j` ends an item: the tokens end there, or a `;` or `)` follows.
pub open spec fn ends_item(t: Seq<TokenView>, j: int) -> bool {
    j == t.len() || (0 <= j < t.len() && (t[j] is Semicolumn || t[j] is Rpar))
}

proof fn lemma_occurs_split(t: Seq<TokenView>, i: int, a: Seq<TokenView>, b: Seq<TokenView>)
    requires
        occurs_at(t, i, a + b),
    ensures
        occurs_at(t, i, a),
        occurs_at(t, i + a.len(), b),
{
    assert forall|k: int| 0 <= k < a.len() implies t[i + k] == a[k] by {
        assert((a + b)[k] == a[k]);
    }
    assert forall|k: int| 0 <= k < b.len() implies t[i + a.len() + k] == b[k] by {
        assert(t[i + (a.len() + k)] == (a + b)[a.len() + k]);
    }
}

proof fn lemma_render_start(e: ElementView)
    ensures
        render(e).len() >= 1,
        render(e)[0] is Lpar || render(e)[0] is Literal,
{
}

proof fn lemma_parse_render(e: ElementView, t: Seq<TokenView>, i: int)
    requires
        well_formed(e),
        occurs_at(t, i, render(e)),
        ends_item(t, i + render(e).len()),
    ensures
        spec_element(t, i) == Some((e, i + render(e).len())),
    decreases e, 0int,
{
    let r = render(e);
    assert(t[i + 0] == r[0]);
    match e {
        ElementView::Primitive(p) => {},
        ElementView::KeyValue(k, v) => {
            let head = seq![TokenView::Literal(PrimitiveView::Str(k)), TokenView::Equal];
            lemma_occurs_split(t, i, head, render(*v));
            assert(t[i + 1] == head[1]);
            lemma_render_start(*v);
            lemma_parse_render(*v, t, i + 2);
            assert(t[i + 2 + 0] == render(*v)[0]);
        },
        ElementView::Bloc(items) => {
            let inner = render_items(items, 0);
            lemma_occurs_split(t, i, seq![TokenView::Lpar] + inner, seq![TokenView::Rpar]);
            lemma_occurs_split(t, i, seq![TokenView::Lpar], inner);
            assert(t[i + 1 + inner.len() + 0] == seq![TokenView::Rpar][0]);
            if items.len() == 0 {
                assert(inner.len() == 0);
                assert(items =~= seq![]);
            } else {
                lemma_render_start(items[0]);
                assert(inner[0] == render(items[0])[0]);
                assert(t[i + 1 + 0] == inner[0]);
                assert(items.take(0) =~= seq![]);
                lemma_parse_items(items, 0, t, i + 1);
            }
        },
    }
}

proof fn lemma_parse_items(items: Seq<ElementView>, k: int, t: Seq<TokenView>, p: int)
    requires
        0 <= k < items.len(),
        forall|m: int| 0 <= m < items.len() ==> well_formed(#[trigger] items[m]),
        occurs_at(t, p, render_items(items, k)),
        p + render_items(items, k).len() < t.len(),
        t[p + render_items(items, k).len()] is Rpar,
    ensures
        spec_items(t, p, items.take(k)) == Some(
            (ElementView::Bloc(items), p + render_items(items, k).len() + 1),
        ),
    decreases items, items.len() - k,
{
    let item = items[k];
    let r = render(item);
    lemma_render_start(item);
    assert(items.take(k).push(item) =~= items.take(k + 1));
    if k + 1 == items.len() {
        lemma_parse_render(item, t, p);
        assert(items.take(k + 1) =~= items);
    } else {
        let rest = render_items(items, k + 1);
        lemma_occurs_split(t, p, r + seq![TokenView::Semicolumn], rest);
        lemma_occurs_split(t, p, r, seq![TokenView::Semicolumn]);
        assert(t[p + r.len() + 0] == seq![TokenView::Semicolumn][0]);
        lemma_parse_render(item, t, p);
        lemma_parse_items(items, k + 1, t, p + r.len() + 1);
    }
}

/// Writing a well-formed tree in the grammar's concrete syntax and parsing
/// the result as a document gives back the same tree.
pub proof fn lemma_round_trip(e: ElementView)
    requires
        well_formed(e),
    ensures
        spec_document(render(e)) == Ok::<ElementView, ParseError>(e),
{
    let t = render(e);
    assert(occurs_at(t, 0, t));
    lemma_parse_render(e, t, 0);
}

/// The count of `(` less the count of `)` among the tokens from `i` up to `j`.
pub open spec fn paren_balance(t: Seq<TokenView>, i: int, j: int) -> int
    decreases j - i,
{
    if j <= i {
        0
    } else {
        paren_balance(t, i, j - 1) + if t[j - 1] is Lpar {
            1int
        } else if t[j - 1] is Rpar {
            -1int
        } else {
            0int
        }
    }
}

proof fn lemma_balance_split(t: Seq<TokenView>, i: int, j: int, k: int)
    requires
        i <= j <= k,
    ensures
        paren_balance(t, i, k) == paren_balance(t, i, j) + paren_balance(t, j, k),
    decreases k - j,
{
    if k > j {
        lemma_balance_split(t, i, j, k - 1);
    }
}

proof fn lemma_element_balanced(t: Seq<TokenView>, i: int)
    ensures
        spec_element(t, i) matches Some((e, j)) ==> i < j && paren_balance(t, i, j) == 0,
    decreases t.len() - i, 3int,
{
    if 0 <= i < t.len() {
        lemma_bloc_balanced(t, i);
        lemma_key_value_balanced(t, i);
        if spec_primitive(t, i) is Some {
            assert(paren_balance(t, i, i + 1) == paren_balance(t, i, i) + 0);
        }
    }
}

proof fn lemma_key_value_balanced(t: Seq<TokenView>, i: int)
    ensures
        spec_key_value(t, i) matches Some((e, j)) ==> i < j && paren_balance(t, i, j) == 0,
    decreases t.len() - i, 2int,
{
    if 0 <= i && i + 1 < t.len() && t[i] is Literal && t[i + 1] is Equal {
        assert(paren_balance(t, i, i + 2) == 0) by {
            assert(paren_balance(t, i, i + 1) == paren_balance(t, i, i) + 0);
        }
        if let Some((v, j)) = spec_primitive(t, i + 2) {
            assert(paren_balance(t, i + 2, i + 3) == paren_balance(t, i + 2, i + 2) + 0);
            lemma_balance_split(t, i, i + 2, j);
        } else {
            lemma_bloc_balanced(t, i + 2);
            if let Some((v, j)) = spec_bloc(t, i + 2) {
                lemma_balance_split(t, i, i + 2, j);
            }
        }
    }
}

proof fn lemma_bloc_balanced(t: Seq<TokenView>, i: int)
    ensures
        spec_bloc(t, i) matches Some((e, j)) ==> i < j && paren_balance(t, i, j) == 0,
    decreases t.len() - i, 2int,
{
    if 0 <= i < t.len() && t[i] is Lpar {
        assert(paren_balance(t, i, i + 1) == paren_balance(t, i, i) + 1);
        if i + 1 < t.len() && t[i + 1] is Rpar {
            assert(paren_balance(t, i, i + 2) == paren_balance(t, i, i + 1) - 1);
        } else {
            lemma_items_balanced(t, i + 1, seq![]);
            if let Some((e, j)) = spec_items(t, i + 1, seq![]) {
                lemma_balance_split(t, i, i + 1, j);
            }
        }
    }
}

proof fn lemma_items_balanced(t: Seq<TokenView>, i: int, acc: Seq<ElementView>)
    ensures
        spec_items(t, i, acc) matches Some((e, m)) ==> i < m && paren_balance(t, i, m) == -1,
    decreases t.len() - i, 4int,
{
    if 0 <= i <= t.len() {
        lemma_element_balanced(t, i);
        if let Some((e, j)) = spec_element(t, i) {
            if i < j < t.len() {
                assert(paren_balance(t, j, j + 1) == paren_balance(t, j, j) + if t[j] is Lpar {
                    1int
                } else if t[j] is Rpar {
                    -1int
                } else {
                    0int
                });
                lemma_balance_split(t, i, j, j + 1);
                if t[j] is Semicolumn {
                    lemma_items_balanced(t, j + 1, acc.push(e));
                    if let Some((b, m)) = spec_items(t, j + 1, acc.push(e)) {
                        lemma_balance_split(t, i, j + 1, m);
                    }
                }
            }
        }
    }
}

/// Tokens whose `(` and `)` do not pair up are never a document; where one
/// element still parses from the start, tokens are left over after it.
pub proof fn lemma_unbalanced_rejected(t: Seq<TokenView>)
    requires
        paren_balance(t, 0, t.len() as int) != 0,
    ensures
        spec_document(t) is Err,
        spec_element(t, 0) is Some ==> spec_document(t) == Err::<ElementView, ParseError>(
            ParseError::TrailingTokens,
        ),
{
    lemma_element_balanced(t, 0);
}

/// Parsing is a function of the tokens: two parses of one token sequence
/// give the same outcome.
pub proof fn lemma_parse_deterministic(
    t: Seq<TokenView>,
    a: Result<ElementView, ParseError>,
    b: Result<ElementView, ParseError>,
)
    requires
        a == spec_document(t),
        b == spec_document(t),
    ensures
        a == b,
{
}

} // verus!
