//! Resolution of parsed text arguments against a font registry.  Each
//! argument's font name becomes a loaded font handle — the builtin default
//! when no font is named — and a missing size defaults to 10 pixel-units.
//! The resolved records keep the arguments' document order, ready to be
//! turned into text handles by the external rendering layer.

use vstd::prelude::*;
use crate::parse::{TextArgument, TextArgModel, arg_models};
use crate::dom_create::ResourceError;
use std::collections::VecDeque;

verus! {

/// An opaque handle to an externally loaded font.
#[derive(Debug, Clone, Copy, PartialEq, Eq, Structural)]
pub struct FontId(pub u64);

/// Maps loaded font names to their handles; `default_font` is the builtin
/// handle used when a text argument names no font.
pub struct FontRegistry {
    pub entries: Vec<(String, FontId)>,
    pub default_font: FontId,
}

/// The model of the registry's entries: font names paired with handles.
pub open spec fn fonts_view(s: Seq<(String, FontId)>) -> Seq<(Seq<char>, FontId)> {
    s.map_values(|p: (String, FontId)| (p.0@, p.1))
}

/// The handle of the first entry whose name matches, if any.
pub open spec fn lookup_font(entries: Seq<(Seq<char>, FontId)>, name: Seq<char>) -> Option<FontId>
    decreases entries.len(),
{
    if entries.len() == 0 {
        None
    } else if entries.first().0 == name {
        Some(entries.first().1)
    } else {
        lookup_font(entries.drop_first(), name)
    }
}

impl FontRegistry {
    /// Resolves a font name; the first matching entry wins.
    pub fn get_font(&self, name: &String) -> (r: Option<FontId>)
        ensures
            r == lookup_font(fonts_view(self.entries@), name@),
    {
        let ghost fv = fonts_view(self.entries@);
        let n = self.entries.len();
        let mut i: usize = 0;
        proof {
            assert(fv.skip(0) =~= fv);
        }
        while i < n
            invariant
                i <= n,
                n == self.entries@.len(),
                fv == fonts_view(self.entries@),
                lookup_font(fv, name@) == lookup_font(fv.skip(i as int), name@),
            decreases n - i,
        {
            proof {
                assert(fv[i as int] == (self.entries@[i as int].0@, self.entries@[i as int].1));
                assert(fv.skip(i as int).first() == fv[i as int]);
                assert(fv.skip(i as int).drop_first() =~= fv.skip(i as int + 1));
            }
            let e = &self.entries[i];
            if e.0 == *name {
                return Some(e.1);
            }
            i += 1;
        }
        proof {
            assert(fv.skip(n as int) =~= Seq::<(Seq<char>, FontId)>::empty());
        }
        None
    }
}

/// A text argument with its resources pinned down: body, the font handle and
/// the pixel size the rendering layer is to use.
#[derive(Debug, Clone, PartialEq, Eq)]
pub struct ResolvedText {
    pub body: String,
    pub font: FontId,
    pub size: usize,
}

/// Mathematical model of [`ResolvedText`].
pub struct ResolvedTextModel {
    pub body: Seq<char>,
    pub font: FontId,
    pub size: nat,
}

impl View for ResolvedText {
    type V = ResolvedTextModel;

    open spec fn view(&self) -> ResolvedTextModel {
        ResolvedTextModel { body: self.body@, font: self.font, size: self.size as nat }
    }
}

/// The model of a resolved-text sequence.
pub open spec fn resolved_models(s: Seq<ResolvedText>) -> Seq<ResolvedTextModel> {
    s.map_values(|r: ResolvedText| r@)
}

/// The pixel size an argument resolves to: its own, or 10 when none is given.
pub open spec fn size_or_default(s: Option<nat>) -> nat {
    match s {
        Some(n) => n,
        None => 10,
    }
}

/// The resolution of one text argument: the named font's handle, or the
/// default handle when no font is named; an unknown font name fails.
pub open spec fn spec_resolve_one(
    a: TextArgModel,
    fonts: Seq<(Seq<char>, FontId)>,
    default_font: FontId,
) -> Result<ResolvedTextModel, ResourceError> {
    match a.font {
        None => Ok(
            ResolvedTextModel {
                body: a.body,
                font: default_font,
                size: size_or_default(a.size),
            },
        ),
        Some(name) => match lookup_font(fonts, name) {
            None => Err(ResourceError::UnknownFont),
            Some(f) => Ok(
                ResolvedTextModel { body: a.body, font: f, size: size_or_default(a.size) },
            ),
        },
    }
}

/// The resolution of a whole argument sequence, in order, stopping at the
/// first unknown font.
pub open spec fn spec_resolve_all(
    args: Seq<TextArgModel>,
    fonts: Seq<(Seq<char>, FontId)>,
    default_font: FontId,
) -> Result<Seq<ResolvedTextModel>, ResourceError>
    decreases args.len(),
{
    if args.len() == 0 {
        Ok(Seq::empty())
    } else {
        match spec_resolve_one(args.first(), fonts, default_font) {
            Err(e) => Err(e),
            Ok(r) => match spec_resolve_all(args.drop_first(), fonts, default_font) {
                Err(e) => Err(e),
                Ok(rs) => Ok(seq![r].add(rs)),
            },
        }
    }
}

/// Resolution preserves the argument count: one resolved record is produced
/// per text argument, in the same order.
pub proof fn lemma_resolve_preserves_count(
    args: Seq<TextArgModel>,
    fonts: Seq<(Seq<char>, FontId)>,
    default_font: FontId,
)
    ensures
        spec_resolve_all(args, fonts, default_font) matches Ok(rs) ==> rs.len() == args.len(),
    decreases args.len(),
{
    if args.len() > 0 {
        lemma_resolve_preserves_count(args.drop_first(), fonts, default_font);
    }
}

/// Resolves the ordered text-argument sequence against the font registry,
/// keeping document order: one resolved record per argument, or the first
/// unknown font name's error.
pub fn resolve_text_arguments(strings: &VecDeque<TextArgument>, fonts: &FontRegistry) -> (r:
    Result<Vec<ResolvedText>, ResourceError>)
    ensures
        match r {
            Ok(v) => spec_resolve_all(arg_models(strings@), fonts_view(fonts.entries@), fonts.default_font)
                == Ok::<Seq<ResolvedTextModel>, ResourceError>(resolved_models(v@)),
            Err(e) => spec_resolve_all(
                arg_models(strings@),
                fonts_view(fonts.entries@),
                fonts.default_font,
            ) == Err::<Seq<ResolvedTextModel>, ResourceError>(e),
        },
{
    let ghost am = arg_models(strings@);
    let ghost fv = fonts_view(fonts.entries@);
    let n = strings.len();
    let mut out: Vec<ResolvedText> = Vec::new();
    let mut i: usize = 0;
    proof {
        assert(am.skip(0) =~= am);
        assert(resolved_models(out@) =~= Seq::<ResolvedTextModel>::empty());
        match spec_resolve_all(am, fv, fonts.default_font) {
            Ok(rs) => {
                assert(resolved_models(out@) + rs =~= rs);
            },
            Err(u) => {},
        }
    }
    while i < n
        invariant
            i <= n,
            n == strings@.len(),
            am == arg_models(strings@),
            fv == fonts_view(fonts.entries@),
            match spec_resolve_all(am.skip(i as int), fv, fonts.default_font) {
                Ok(rs) => spec_resolve_all(am, fv, fonts.default_font) == Ok::<
                    Seq<ResolvedTextModel>,
                    ResourceError,
                >(resolved_models(out@) + rs),
                Err(e) => spec_resolve_all(am, fv, fonts.default_font) == Err::<
                    Seq<ResolvedTextModel>,
                    ResourceError,
                >(e),
            },
        decreases n - i,
    {
        proof {
            assert(am[i as int] == strings@[i as int]@);
            assert(am.skip(i as int).first() == am[i as int]);
            assert(am.skip(i as int).drop_first() =~= am.skip(i as int + 1));
        }
        let a = &strings[i];
        let font: FontId = match &a.font {
            None => fonts.default_font,
            Some(name) => match fonts.get_font(name) {
                Some(f) => f,
                None => {
                    return Err(ResourceError::UnknownFont);
                },
            },
        };
        let size: usize = match a.size {
            Some(s) => s,
            None => 10,
        };
        let resolved = ResolvedText { body: a.body.clone(), font: font, size: size };
        let ghost out_before = out@;
        proof {
            assert(resolved_models(out_before.push(resolved)) =~= resolved_models(
                out_before,
            ).push(resolved@));
        }
        out.push(resolved);
        proof {
            match spec_resolve_all(am.skip(i as int + 1), fv, fonts.default_font) {
                Ok(rs) => {
                    assert((resolved_models(out_before) + seq![resolved@]) + rs =~= resolved_models(
                        out_before,
                    ) + (seq![resolved@] + rs));
                    assert(resolved_models(out_before).push(resolved@) =~= resolved_models(
                        out_before,
                    ) + seq![resolved@]);
                },
                Err(u) => {},
            }
        }
        i += 1;
    }
    proof {
        assert(am.skip(n as int) =~= Seq::<TextArgModel>::empty());
        match spec_resolve_all(am, fv, fonts.default_font) {
            Ok(rs) => {
                assert(resolved_models(out@) + Seq::<ResolvedTextModel>::empty() =~= resolved_models(
                    out@,
                ));
            },
            Err(u) => {},
        }
    }
    Ok(out)
}

} // verus!
