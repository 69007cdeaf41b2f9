//! Tree materialization: a depth-first, pre-order walk of the parsed tree
//! that produces the generic output UI-node tree, resolving image identifiers
//! against a registry and attaching text handles popped off the front of the
//! supplied queue, one per `text` node in document order.

use vstd::prelude::*;
use crate::parse::{
    ASTPoint, AstModel, NType, NTypeModel, Node, NodeModel, TextArgModel, ast_view, asts_view,
    count_text_ast, count_text_asts, opt_view, spec_parse_tree,
};
use std::collections::VecDeque;

verus! {

/// An opaque handle to an externally registered text resource.
#[derive(Debug, Clone, Copy, PartialEq, Eq, Structural)]
pub struct TextId(pub u64);

/// An opaque handle to an externally registered image resource.
#[derive(Debug, Clone, Copy, PartialEq, Eq, Structural)]
pub struct ImageId(pub u64);

/// A failure to resolve an external resource during materialization or text
/// resolution.
#[derive(Debug, Clone, Copy, PartialEq, Eq)]
pub enum ResourceError {
    /// An image identifier the registry does not know.
    UnknownImage,
    /// A font name the registry does not know.
    UnknownFont,
    /// A `Text` node was reached with the handle queue already empty.
    ExhaustedTextHandles,
}

/// The registry of image handles the materializer resolves image identifiers
/// against.
pub struct ImageRegistry {
    pub entries: Vec<(String, ImageId)>,
}

/// The model of the registry's entries: identifier character sequences paired
/// with handles, in order.
pub open spec fn images_view(s: Seq<(String, ImageId)>) -> Seq<(Seq<char>, ImageId)> {
    s.map_values(|p: (String, ImageId)| (p.0@, p.1))
}

/// The handle of the first entry whose identifier matches, if any.
pub open spec fn lookup_image(entries: Seq<(Seq<char>, ImageId)>, name: Seq<char>) -> Option<
    ImageId,
>
    decreases entries.len(),
{
    if entries.len() == 0 {
        None
    } else if entries.first().0 == name {
        Some(entries.first().1)
    } else {
        lookup_image(entries.drop_first(), name)
    }
}

impl ImageRegistry {
    /// Resolves an image identifier; the first matching entry wins.
    pub fn get_image(&self, name: &String) -> (r: Option<ImageId>)
        ensures
            r == lookup_image(images_view(self.entries@), name@),
    {
        let ghost iv = images_view(self.entries@);
        let n = self.entries.len();
        let mut i: usize = 0;
        proof {
            assert(iv.skip(0) =~= iv);
        }
        while i < n
            invariant
                i <= n,
                n == self.entries@.len(),
                iv == images_view(self.entries@),
                lookup_image(iv, name@) == lookup_image(iv.skip(i as int), name@),
            decreases n - i,
        {
            proof {
                assert(iv[i as int] == (self.entries@[i as int].0@, self.entries@[i as int].1));
                assert(iv.skip(i as int).first() == iv[i as int]);
                assert(iv.skip(i as int).drop_first() =~= iv.skip(i as int + 1));
            }
            let e = &self.entries[i];
            if e.0 == *name {
                return Some(e.1);
            }
            i += 1;
        }
        proof {
            assert(iv.skip(n as int) =~= Seq::<(Seq<char>, ImageId)>::empty());
        }
        None
    }
}

/// One node of the produced output tree: the kind tag with its payload.
#[derive(Debug, PartialEq, Eq)]
pub enum DomNodeType {
    Div,
    Label(String),
    Image(ImageId),
    Text(TextId),
}

/// The generic output UI node: kind, optional identifier, ordered children.
#[derive(Debug, PartialEq, Eq)]
pub struct Dom {
    pub node_type: DomNodeType,
    pub id: Option<String>,
    pub children: Vec<Dom>,
}

/// Mathematical model of [`DomNodeType`].
pub enum DomNodeTypeModel {
    Div,
    Label(Seq<char>),
    Image(ImageId),
    Text(TextId),
}

/// Mathematical model of a [`Dom`] tree.
pub struct DomModel {
    pub node_type: DomNodeTypeModel,
    pub id: Option<Seq<char>>,
    pub children: Seq<DomModel>,
}

/// The model of one output node's kind.
pub open spec fn dnt_view(nt: DomNodeType) -> DomNodeTypeModel {
    match nt {
        DomNodeType::Div => DomNodeTypeModel::Div,
        DomNodeType::Label(s) => DomNodeTypeModel::Label(s@),
        DomNodeType::Image(h) => DomNodeTypeModel::Image(h),
        DomNodeType::Text(h) => DomNodeTypeModel::Text(h),
    }
}

/// Mathematical model of a [`Dom`] tree.
pub open spec fn dom_view(d: Dom) -> DomModel
    decreases d, 1int,
{
    DomModel { node_type: dnt_view(d.node_type), id: opt_view(d.id), children: doms_view(d.children@) }
}

/// Models of a sequence of output trees, in order.
pub open spec fn doms_view(s: Seq<Dom>) -> Seq<DomModel>
    decreases s, 0int,
    via doms_view_dec
{
    if s.len() == 0 {
        Seq::empty()
    } else {
        seq![dom_view(s.first())] + doms_view(s.drop_first())
    }
}

#[via_fn]
proof fn doms_view_dec(s: Seq<Dom>) {
    if s.len() != 0 {
        vstd::seq::axiom_seq_subrange_decreases(s, 1, s.len() as int);
        assert(s.drop_first() == s.subrange(1, s.len() as int));
    }
}

proof fn lemma_doms_view_push(s: Seq<Dom>, d: Dom)
    ensures
        doms_view(s.push(d)) == doms_view(s) + seq![dom_view(d)],
    decreases s.len(),
{
    if s.len() == 0 {
        assert(s.push(d).drop_first() =~= Seq::<Dom>::empty());
        assert(s.push(d).first() == d);
        assert(doms_view(s.push(d).drop_first()) == Seq::<DomModel>::empty());
        assert(seq![dom_view(d)] + Seq::<DomModel>::empty() =~= seq![dom_view(d)]);
        assert(doms_view(s) + seq![dom_view(d)] =~= seq![dom_view(d)]);
    } else {
        assert(s.push(d).first() == s.first());
        assert(s.push(d).drop_first() =~= s.drop_first().push(d));
        lemma_doms_view_push(s.drop_first(), d);
        assert(seq![dom_view(s.first())] + (doms_view(s.drop_first()) + seq![dom_view(d)]) =~= (
        seq![dom_view(s.first())] + doms_view(s.drop_first())) + seq![dom_view(d)]);
    }
}

proof fn lemma_asts_view_props(s: Seq<ASTPoint>)
    ensures
        asts_view(s).len() == s.len(),
        forall|i: int| 0 <= i < s.len() ==> asts_view(s)[i] == ast_view(s[i]),
    decreases s.len(),
{
    if s.len() > 0 {
        lemma_asts_view_props(s.drop_first());
        assert forall|i: int| 0 <= i < s.len() implies asts_view(s)[i] == ast_view(s[i]) by {
            if i == 0 {
                assert(asts_view(s)[0] == ast_view(s.first()));
            } else {
                assert(asts_view(s)[i] == asts_view(s.drop_first())[i - 1]);
                assert(s.drop_first()[i - 1] == s[i]);
            }
        }
    }
}

/// The output payload for one AST node head, together with the text handles
/// that remain after it.
pub open spec fn spec_single(
    kind: NTypeModel,
    texts: Seq<TextId>,
    images: Seq<(Seq<char>, ImageId)>,
) -> Result<(DomNodeTypeModel, Seq<TextId>), ResourceError> {
    match kind {
        NTypeModel::Div => Ok((DomNodeTypeModel::Div, texts)),
        NTypeModel::Label(s) => Ok((DomNodeTypeModel::Label(s), texts)),
        NTypeModel::Image(s) => match lookup_image(images, s) {
            Some(h) => Ok((DomNodeTypeModel::Image(h), texts)),
            None => Err(ResourceError::UnknownImage),
        },
        NTypeModel::Text => if texts.len() == 0 {
            Err(ResourceError::ExhaustedTextHandles)
        } else {
            Ok((DomNodeTypeModel::Text(texts.first()), texts.drop_first()))
        },
    }
}

/// Materialization of one tree: the output tree and the handles that remain.
/// The walk is depth-first and pre-order: a node takes its handle before its
/// children do, and children go left to right.
pub open spec fn spec_create_dom(
    a: AstModel,
    texts: Seq<TextId>,
    images: Seq<(Seq<char>, ImageId)>,
) -> Result<(DomModel, Seq<TextId>), ResourceError>
    decreases a, 1int,
{
    match a {
        AstModel::Element(n) => match spec_single(n.kind, texts, images) {
            Ok(p) => Ok((DomModel { node_type: p.0, id: n.id, children: Seq::empty() }, p.1)),
            Err(e) => Err(e),
        },
        AstModel::Joint(n, ch) => match spec_single(n.kind, texts, images) {
            Ok(p) => match spec_create_doms(ch, p.1, images) {
                Ok(q) => Ok((DomModel { node_type: p.0, id: n.id, children: q.0 }, q.1)),
                Err(e) => Err(e),
            },
            Err(e) => Err(e),
        },
    }
}

/// Materialization of a sequence of trees, threading the handle queue left to
/// right.
pub open spec fn spec_create_doms(
    s: Seq<AstModel>,
    texts: Seq<TextId>,
    images: Seq<(Seq<char>, ImageId)>,
) -> Result<(Seq<DomModel>, Seq<TextId>), ResourceError>
    decreases s, 0int,
    via spec_create_doms_dec
{
    if s.len() == 0 {
        Ok((Seq::empty(), texts))
    } else {
        match spec_create_dom(s.first(), texts, images) {
            Ok(p) => match spec_create_doms(s.drop_first(), p.1, images) {
                Ok(q) => Ok((seq![p.0].add(q.0), q.1)),
                Err(e) => Err(e),
            },
            Err(e) => Err(e),
        }
    }
}

#[via_fn]
proof fn spec_create_doms_dec(s: Seq<AstModel>, texts: Seq<TextId>, images: Seq<(Seq<char>, ImageId)>) {
    if s.len() != 0 {
        vstd::seq::axiom_seq_subrange_decreases(s, 1, s.len() as int);
        assert(s.drop_first() == s.subrange(1, s.len() as int));
    }
}

fn clone_opt(o: &Option<String>) -> (r: Option<String>)
    ensures
        opt_view(r) == opt_view(*o),
{
    match o {
        Some(s) => Some(s.clone()),
        None => None,
    }
}

/// Builds the output payload for one node: a `Label` embeds its literal, an
/// `Image` resolves its identifier eagerly, a `Text` pops the next handle.
fn create_single(point: &NType, texts: &mut VecDeque<TextId>, info: &ImageRegistry) -> (r: Result<
    DomNodeType,
    ResourceError,
>)
    ensures
        match r {
            Ok(nt) => ({
                let sp = spec_single(point@, old(texts)@, images_view(info.entries@));
                &&& sp matches Ok(p)
                &&& p.0 == dnt_view(nt)
                &&& final(texts)@ == p.1
            }),
            Err(e) => spec_single(point@, old(texts)@, images_view(info.entries@)) == Err::<
                (DomNodeTypeModel, Seq<TextId>),
                ResourceError,
            >(e) && final(texts)@ == old(texts)@,
        },
{
    match point {
        NType::Div => Ok(DomNodeType::Div),
        NType::Label(text) => Ok(DomNodeType::Label(text.clone())),
        NType::Image(imgid) => match info.get_image(imgid) {
            Some(h) => Ok(DomNodeType::Image(h)),
            None => Err(ResourceError::UnknownImage),
        },
        NType::Text => match texts.pop_front() {
            Some(t) => Ok(DomNodeType::Text(t)),
            None => Err(ResourceError::ExhaustedTextHandles),
        },
    }
}

/// Materializes one tree against the handle queue and image registry.  The
/// queue is consumed destructively, one handle per `Text` node in document
/// order; on failure the whole call fails and no tree is returned.
#[verifier::loop_isolation(false)]
pub fn create_dom(head: &ASTPoint, texts: &mut VecDeque<TextId>, info: &ImageRegistry) -> (r:
    Result<Dom, ResourceError>)
    ensures
        match r {
            Ok(d) => ({
                let sp = spec_create_dom(ast_view(*head), old(texts)@, images_view(info.entries@));
                &&& sp matches Ok(p)
                &&& p.0 == dom_view(d)
                &&& final(texts)@ == p.1
            }),
            Err(e) => spec_create_dom(ast_view(*head), old(texts)@, images_view(info.entries@))
                == Err::<(DomModel, Seq<TextId>), ResourceError>(e),
        },
    decreases *head, 1int,
{
    match head {
        ASTPoint::Element(node) => match create_single(&node.0, texts, info) {
            Ok(nt) => {
                proof {
                    assert(doms_view(Seq::<Dom>::empty()) == Seq::<DomModel>::empty());
                }
                Ok(Dom { node_type: nt, id: clone_opt(&node.1), children: Vec::new() })
            },
            Err(e) => Err(e),
        },
        ASTPoint::Joint(node, body) => {
            let nt = match create_single(&node.0, texts, info) {
                Ok(nt) => nt,
                Err(e) => {
                    return Err(e);
                },
            };
            let ghost cs = asts_view(body@);
            let ghost rest0 = texts@;
            proof {
                lemma_asts_view_props(body@);
                assert(cs.skip(0) =~= cs);
                match spec_create_doms(cs, rest0, images_view(info.entries@)) {
                    Ok(q) => {
                        assert(Seq::<DomModel>::empty() + q.0 =~= q.0);
                    },
                    Err(u) => {},
                }
            }
            let mut kids: Vec<Dom> = Vec::new();
            let mut i: usize = 0;
            while i < body.len()
                invariant
                    i <= body.len(),
                    cs == asts_view(body@),
                    cs.len() == body@.len(),
                    match spec_create_doms(cs.skip(i as int), texts@, images_view(info.entries@)) {
                        Ok(q) => spec_create_doms(cs, rest0, images_view(info.entries@)) == Ok::<
                            (Seq<DomModel>, Seq<TextId>),
                            ResourceError,
                        >((doms_view(kids@) + q.0, q.1)),
                        Err(e) => spec_create_doms(cs, rest0, images_view(info.entries@)) == Err::<
                            (Seq<DomModel>, Seq<TextId>),
                            ResourceError,
                        >(e),
                    },
                decreases body.len() - i,
            {
                proof {
                    assert(cs.skip(i as int).first() == cs[i as int]);
                    assert(cs[i as int] == ast_view(body@[i as int]));
                    assert(cs.skip(i as int).drop_first() =~= cs.skip(i as int + 1));
                }
                match create_dom(&body[i], texts, info) {
                    Err(e) => {
                        return Err(e);
                    },
                    Ok(child) => {
                        let ghost kids_before = kids@;
                        proof {
                            lemma_doms_view_push(kids_before, child);
                        }
                        kids.push(child);
                        proof {
                            match spec_create_doms(
                                cs.skip(i as int + 1),
                                texts@,
                                images_view(info.entries@),
                            ) {
                                Ok(q) => {
                                    assert((doms_view(kids_before) + seq![dom_view(child)]) + q.0
                                        =~= doms_view(kids_before) + (seq![dom_view(child)] + q.0));
                                },
                                Err(u) => {},
                            }
                        }
                        i += 1;
                    },
                }
            }
            proof {
                assert(cs.skip(body@.len() as int) =~= Seq::<AstModel>::empty());
                match spec_create_doms(cs, rest0, images_view(info.entries@)) {
                    Ok(q) => {
                        assert(doms_view(kids@) + Seq::<DomModel>::empty() =~= doms_view(kids@));
                    },
                    Err(u) => {},
                }
            }
            Ok(Dom { node_type: nt, id: clone_opt(&node.1), children: kids })
        },
    }
}

/// Pre-order count of `Text` nodes in an output tree model.
pub open spec fn count_text_dom(d: DomModel) -> nat
    decreases d, 1int,
{
    (if (d.node_type matches DomNodeTypeModel::Text(_)) {
        1nat
    } else {
        0nat
    }) + count_text_doms(d.children)
}

/// Pre-order count of `Text` nodes over a sequence of output tree models.
pub open spec fn count_text_doms(s: Seq<DomModel>) -> nat
    decreases s, 0int,
    via count_text_doms_dec
{
    if s.len() == 0 {
        0nat
    } else {
        count_text_dom(s.first()) + count_text_doms(s.drop_first())
    }
}

#[via_fn]
proof fn count_text_doms_dec(s: Seq<DomModel>) {
    if s.len() != 0 {
        vstd::seq::axiom_seq_subrange_decreases(s, 1, s.len() as int);
        assert(s.drop_first() == s.subrange(1, s.len() as int));
    }
}

proof fn lemma_count_text_dom_cons(d: DomModel, ds: Seq<DomModel>)
    ensures
        count_text_doms(seq![d] + ds) == count_text_dom(d) + count_text_doms(ds),
{
    assert((seq![d] + ds).first() == d);
    assert((seq![d] + ds).drop_first() =~= ds);
    assert((seq![d] + ds).len() != 0);
}

/// A successful materialization consumes exactly one handle per `Text` node,
/// in order from the front of the queue, and emits exactly one `Text` output
/// node per `Text` AST node.
pub proof fn lemma_materialize_text_correlation(
    a: AstModel,
    texts: Seq<TextId>,
    images: Seq<(Seq<char>, ImageId)>,
)
    ensures
        spec_create_dom(a, texts, images) matches Ok(p) ==> {
            &&& count_text_dom(p.0) == count_text_ast(a)
            &&& count_text_ast(a) <= texts.len()
            &&& p.1 == texts.skip(count_text_ast(a) as int)
        },
    decreases a, 1int,
{
    match a {
        AstModel::Element(n) => {
            if let Ok(p) = spec_create_dom(a, texts, images) {
                assert(count_text_doms(p.0.children) == 0);
                if (n.kind matches NTypeModel::Text) {
                    assert(p.1 =~= texts.skip(1));
                } else {
                    assert(p.1 =~= texts.skip(0));
                }
            }
        },
        AstModel::Joint(n, ch) => {
            if let Ok(ph) = spec_single(n.kind, texts, images) {
                lemma_materialize_texts_correlation(ch, ph.1, images);
                if let Ok(p) = spec_create_dom(a, texts, images) {
                    let h: nat = if (n.kind matches NTypeModel::Text) {
                        1nat
                    } else {
                        0nat
                    };
                    assert(ph.1 =~= texts.skip(h as int));
                    assert(texts.skip(h as int).skip(count_text_asts(ch) as int) =~= texts.skip(
                        h + count_text_asts(ch) as int,
                    ));
                }
            }
        },
    }
}

/// The same correlation over a sequence of trees materialized left to right.
pub proof fn lemma_materialize_texts_correlation(
    s: Seq<AstModel>,
    texts: Seq<TextId>,
    images: Seq<(Seq<char>, ImageId)>,
)
    ensures
        spec_create_doms(s, texts, images) matches Ok(q) ==> {
            &&& count_text_doms(q.0) == count_text_asts(s)
            &&& count_text_asts(s) <= texts.len()
            &&& q.1 == texts.skip(count_text_asts(s) as int)
        },
    decreases s, 0int,
{
    if s.len() == 0 {
        if let Ok(q) = spec_create_doms(s, texts, images) {
            assert(q.1 =~= texts.skip(0));
        }
    } else {
        if let Ok(p) = spec_create_dom(s.first(), texts, images) {
            lemma_materialize_text_correlation(s.first(), texts, images);
            lemma_materialize_texts_correlation(s.drop_first(), p.1, images);
            if let Ok(q) = spec_create_doms(s.drop_first(), p.1, images) {
                lemma_count_text_dom_cons(p.0, q.0);
                let c1 = count_text_ast(s.first());
                let c2 = count_text_asts(s.drop_first());
                assert(texts.skip(c1 as int).skip(c2 as int) =~= texts.skip(c1 as int + c2 as int));
            }
        }
    }
}

/// Materializing the same tree twice against the same registry with two
/// equal handle queues yields equal outcomes, and so structurally equal
/// output trees.
pub proof fn lemma_materialize_deterministic(
    a: AstModel,
    q1: Seq<TextId>,
    q2: Seq<TextId>,
    images: Seq<(Seq<char>, ImageId)>,
)
    requires
        q1 == q2,
    ensures
        spec_create_dom(a, q1, images) == spec_create_dom(a, q2, images),
{
}

/// For a well-formed document the counts agree end to end: the parser emits
/// one text argument per `Text` node, and materialization consumes one handle
/// and emits one `Text` output node per `Text` node.
pub proof fn lemma_text_pipeline_correlation(
    toks: Seq<crate::tokenize::TokenModel>,
    texts: Seq<TextId>,
    images: Seq<(Seq<char>, ImageId)>,
)
    ensures
        spec_parse_tree(toks) matches Ok(t) ==> {
            &&& t.1.len() == count_text_ast(t.0)
            &&& (spec_create_dom(t.0, texts, images) matches Ok(p) ==> {
                &&& count_text_dom(p.0) == t.1.len()
                &&& texts.len() - p.1.len() == t.1.len()
            })
        },
{
    crate::parse::lemma_parse_text_correlation(toks);
    if let Ok(t) = spec_parse_tree(toks) {
        lemma_materialize_text_correlation(t.0, texts, images);
    }
}

} // verus!
