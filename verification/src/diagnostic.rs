//! Diagnostics with source excerpts: what an error says, the labels it
//! places in the sources, and the notes after it. Which labels can be
//! placed, where, and in what order is decided here; drawing them is the
//! renderer's.

use vstd::prelude::*;
use crate::ident::{str_eq, IdentInterner};
use crate::module::spec_file_name;
use crate::package::MetadataHolder;
use crate::sort::{lex_le, sort_strings, sort_strs, str_le, string_views};
use crate::src::{spec_chars_before, ModId, ModSource, SourceHolder};
use crate::text::utf8_len;

verus! {

/// Where to put a label, taken apart: the module, and byte offsets in its
/// source.
#[derive(Debug, Clone, Copy, PartialEq, Eq, Structural)]
pub struct DiagSpan {
    pub mod_id: ModId,
    pub begin: usize,
    pub end: usize,
}

impl DiagSpan {
    pub fn new(mod_id: ModId, begin: usize, end: usize) -> (r: Self)
        ensures
            r == (DiagSpan { mod_id, begin, end }),
    {
        DiagSpan { mod_id, begin, end }
    }
}

/// The colour of a label: red for the main ones, blue for the others.
#[derive(Debug, Clone, Copy, PartialEq, Eq, Structural)]
pub enum LabelColor {
    Red,
    Blue,
}

/// What a diagnostic reads about the package being built.
pub struct ErrorContext<'a> {
    pub metadata: &'a MetadataHolder,
    pub srcs: &'a SourceHolder,
    pub interner: &'a IdentInterner,
}

impl<'a> ErrorContext<'a> {
    /// Starts a diagnostic with its message. One that cannot place any
    /// label (spans into other packages, or dummies) shows the message
    /// alone.
    pub fn diagnostic(&'a self, message: String) -> (r: Diagnostic<'a>)
        ensures
            r.context() == *self,
            r@.message == message@,
            r@.labels.len() == 0,
            r@.notes.len() == 0,
    {
        let r = Diagnostic { ctx: self, message, labels: Vec::new(), notes: Vec::new() };
        assert(r@.labels =~= Seq::<(DiagSpan, Seq<char>, LabelColor)>::empty());
        assert(r@.notes =~= Seq::<Seq<char>>::empty());
        r
    }
}

/// A diagnostic as plain values.
pub ghost struct DiagnosticView {
    pub message: Seq<char>,
    pub labels: Seq<(DiagSpan, Seq<char>, LabelColor)>,
    pub notes: Seq<Seq<char>>,
}

pub struct Diagnostic<'a> {
    ctx: &'a ErrorContext<'a>,
    message: String,
    labels: Vec<(DiagSpan, String, LabelColor)>,
    notes: Vec<String>,
}

pub open spec fn label_view(l: (DiagSpan, String, LabelColor)) -> (DiagSpan, Seq<char>, LabelColor) {
    (l.0, l.1@, l.2)
}

impl<'a> View for Diagnostic<'a> {
    type V = DiagnosticView;

    closed spec fn view(&self) -> DiagnosticView {
        DiagnosticView {
            message: self.message@,
            labels: self.labels@.map_values(|l: (DiagSpan, String, LabelColor)| label_view(l)),
            notes: string_views(self.notes@),
        }
    }
}

impl<'a> Diagnostic<'a> {
    /// The context the diagnostic reads.
    pub closed spec fn context(&self) -> ErrorContext<'a> {
        *self.ctx
    }

    /// A main label, in red. The first placed label is where the error is
    /// reported.
    pub fn label(self, span: DiagSpan, text: String) -> (r: Self)
        ensures
            r.context() == self.context(),
            r@.message == self@.message,
            r@.labels == self@.labels.push((span, text@, LabelColor::Red)),
            r@.notes == self@.notes,
    {
        self.push_label(span, text, LabelColor::Red)
    }

    /// A secondary label, in blue: where something was first defined, say.
    pub fn sub_label(self, span: DiagSpan, text: String) -> (r: Self)
        ensures
            r.context() == self.context(),
            r@.message == self@.message,
            r@.labels == self@.labels.push((span, text@, LabelColor::Blue)),
            r@.notes == self@.notes,
    {
        self.push_label(span, text, LabelColor::Blue)
    }

    fn push_label(self, span: DiagSpan, text: String, color: LabelColor) -> (r: Self)
        ensures
            r.context() == self.context(),
            r@.message == self@.message,
            r@.labels == self@.labels.push((span, text@, color)),
            r@.notes == self@.notes,
    {
        let mut d = self;
        let ghost before = d.labels@;
        d.labels.push((span, text, color));
        proof {
            assert(d.labels@.map_values(|l: (DiagSpan, String, LabelColor)| label_view(l)) =~= before.map_values(
                |l: (DiagSpan, String, LabelColor)| label_view(l),
            ).push((span, text@, color)));
        }
        d
    }

    /// A main label when there is a span; nothing otherwise.
    pub fn label_opt(self, span: Option<DiagSpan>, text: String) -> (r: Self)
        ensures
            r.context() == self.context(),
            r@.message == self@.message,
            r@.labels == match span {
                Some(s) => self@.labels.push((s, text@, LabelColor::Red)),
                None => self@.labels,
            },
            r@.notes == self@.notes,
    {
        match span {
            Some(s) => self.label(s, text),
            None => self,
        }
    }

    /// A secondary label when there is a span; nothing otherwise.
    pub fn sub_label_opt(self, span: Option<DiagSpan>, text: String) -> (r: Self)
        ensures
            r.context() == self.context(),
            r@.message == self@.message,
            r@.labels == match span {
                Some(s) => self@.labels.push((s, text@, LabelColor::Blue)),
                None => self@.labels,
            },
            r@.notes == self@.notes,
    {
        match span {
            Some(s) => self.sub_label(s, text),
            None => self,
        }
    }

    pub fn note(self, text: String) -> (r: Self)
        ensures
            r.context() == self.context(),
            r@.message == self@.message,
            r@.labels == self@.labels,
            r@.notes == self@.notes.push(text@),
    {
        let mut d = self;
        let ghost before = d.notes@;
        d.notes.push(text);
        assert(string_views(d.notes@) =~= string_views(before).push(text@));
        d
    }

    pub fn message(&self) -> (r: &str)
        ensures
            r@ == self@.message,
    {
        self.message.as_str()
    }

    pub fn notes(&self) -> (r: &[String])
        ensures
            string_views(r@) == self@.notes,
    {
        self.notes.as_slice()
    }
}


/// The source recorded for a module, the first one for the id.
pub open spec fn source_of(mods: Seq<(ModId, ModSource)>, id: ModId) -> Option<ModSource>
    decreases mods.len(),
{
    if mods.len() == 0 {
        None
    } else if mods[0].0 == id {
        Some(mods[0].1)
    } else {
        source_of(mods.drop_first(), id)
    }
}

/// A label placed in a source file, with character offsets.
pub ghost struct PlacedView {
    pub file: Seq<char>,
    pub begin: int,
    pub end: int,
    pub text: Seq<char>,
    pub color: LabelColor,
}

/// Where a label goes, if its module's source is at hand: byte offsets
/// become character offsets (the renderer counts characters), and the end
/// is never before the beginning.
pub open spec fn place(mods: Seq<(ModId, ModSource)>, l: (DiagSpan, Seq<char>, LabelColor)) -> Option<PlacedView> {
    match source_of(mods, l.0.mod_id) {
        None => None,
        Some(m) => {
            let b = spec_chars_before(m.src@, l.0.begin as int, 0) as int;
            let e = spec_chars_before(m.src@, l.0.end as int, 0) as int;
            Some(PlacedView { file: spec_file_name(m.modu@), begin: b, end: if e >= b { e } else { b }, text: l.1, color: l.2 })
        },
    }
}

pub open spec fn place_all(mods: Seq<(ModId, ModSource)>, labels: Seq<(DiagSpan, Seq<char>, LabelColor)>) -> Seq<PlacedView>
    decreases labels.len(),
{
    if labels.len() == 0 {
        Seq::empty()
    } else {
        let rest = place_all(mods, labels.drop_last());
        match place(mods, labels.last()) {
            Some(p) => rest.push(p),
            None => rest,
        }
    }
}

/// The order labels are drawn in: by file, then by position.
pub open spec fn placed_le(a: PlacedView, b: PlacedView) -> bool {
    if a.file == b.file {
        a.begin <= b.begin
    } else {
        lex_le(a.file, b.file)
    }
}

pub open spec fn insert_placed(s: Seq<PlacedView>, x: PlacedView) -> Seq<PlacedView>
    decreases s.len(),
{
    if s.len() == 0 {
        seq![x]
    } else if placed_le(s.last(), x) {
        s.push(x)
    } else {
        insert_placed(s.drop_last(), x).push(s.last())
    }
}

/// A stable sort of placed labels.
pub open spec fn sort_placed(s: Seq<PlacedView>) -> Seq<PlacedView>
    decreases s.len(),
{
    if s.len() == 0 {
        Seq::empty()
    } else {
        insert_placed(sort_placed(s.drop_last()), s.last())
    }
}

proof fn lemma_insert_placed_at(s: Seq<PlacedView>, x: PlacedView, j: int)
    requires
        0 <= j <= s.len(),
        forall|k: int| j <= k < s.len() ==> !placed_le(#[trigger] s[k], x),
        j == 0 || placed_le(s[j - 1], x),
    ensures
        insert_placed(s, x) == s.insert(j, x),
    decreases s.len(),
{
    if s.len() == 0 {
        assert(s.insert(j, x) =~= seq![x]);
    } else if j == s.len() {
        assert(s.insert(j, x) =~= s.push(x));
    } else {
        assert(!placed_le(s[s.len() - 1], x));
        let t = s.drop_last();
        assert forall|k: int| j <= k < t.len() implies !placed_le(#[trigger] t[k], x) by {
            assert(t[k] == s[k]);
        }
        lemma_insert_placed_at(t, x, j);
        assert(t.insert(j, x).push(s.last()) =~= s.insert(j, x));
    }
}

/// A label placed in a source file, ready to be drawn.
#[derive(Debug)]
pub struct PlacedLabel {
    pub file: String,
    pub begin: usize,
    pub end: usize,
    pub text: String,
    pub color: LabelColor,
}

pub open spec fn placed_view(p: PlacedLabel) -> PlacedView {
    PlacedView { file: p.file@, begin: p.begin as int, end: p.end as int, text: p.text@, color: p.color }
}

pub open spec fn placed_views(s: Seq<PlacedLabel>) -> Seq<PlacedView> {
    s.map_values(|p: PlacedLabel| placed_view(p))
}

fn find_source<'s>(srcs: &'s SourceHolder, id: ModId) -> (r: Option<&'s ModSource>)
    ensures
        match source_of(srcs.mods@, id) {
            Some(m) => r matches Some(x) && *x == m,
            None => r is None,
        },
{
    let mut i: usize = 0;
    assert(srcs.mods@.skip(0) =~= srcs.mods@);
    while i < srcs.mods.len()
        invariant
            i <= srcs.mods@.len(),
            source_of(srcs.mods@, id) == source_of(srcs.mods@.skip(i as int), id),
        decreases srcs.mods@.len() - i,
    {
        proof {
            let rest = srcs.mods@.skip(i as int);
            assert(rest[0] == srcs.mods@[i as int]);
            assert(rest.drop_first() =~= srcs.mods@.skip(i + 1));
        }
        if srcs.mods[i].0.0 == id.0 {
            return Some(&srcs.mods[i].1);
        }
        i = i + 1;
    }
    None
}

fn place_label(srcs: &SourceHolder, l: &(DiagSpan, String, LabelColor)) -> (r: Option<PlacedLabel>)
    ensures
        match place(srcs.mods@, label_view(*l)) {
            Some(p) => r matches Some(x) && placed_view(x) == p,
            None => r is None,
        },
{
    match find_source(srcs, l.0.mod_id) {
        None => None,
        Some(m) => {
            let bytes = m.src.as_str().as_bytes();
            let len = bytes.len();
            assert(utf8_len(m.src@) == len);
            let begin = m.char_offset(l.0.begin);
            let end0 = m.char_offset(l.0.end);
            let end = if end0 >= begin {
                end0
            } else {
                begin
            };
            Some(PlacedLabel { file: m.modu.file_name(), begin, end, text: l.1.clone(), color: l.2 })
        },
    }
}

fn placed_le_exec(a: &PlacedLabel, b: &PlacedLabel) -> (r: bool)
    ensures
        r == placed_le(placed_view(*a), placed_view(*b)),
{
    if str_eq(a.file.as_str(), b.file.as_str()) {
        a.begin <= b.begin
    } else {
        str_le(a.file.as_str(), b.file.as_str())
    }
}

impl<'a> Diagnostic<'a> {
    /// The labels that can be placed (those in the sources of the package
    /// being built), in drawing order: by file, then by position. Labels
    /// out of order would split the excerpts of one file.
    pub fn placed_labels(&self) -> (r: Vec<PlacedLabel>)
        ensures
            placed_views(r@) == sort_placed(place_all(self.context().srcs.mods@, self@.labels)),
    {
        let ghost lv = self@.labels;
        let ghost mods = self.ctx.srcs.mods@;
        let mut out: Vec<PlacedLabel> = Vec::new();
        let mut i: usize = 0;
        assert(lv.take(0) =~= Seq::<(DiagSpan, Seq<char>, LabelColor)>::empty());
        assert(placed_views(out@) =~= Seq::<PlacedView>::empty());
        while i < self.labels.len()
            invariant
                i <= self.labels@.len(),
                lv == self@.labels,
                mods == self.ctx.srcs.mods@,
                placed_views(out@) == sort_placed(place_all(mods, lv.take(i as int))),
            decreases self.labels@.len() - i,
        {
            proof {
                let t = lv.take(i + 1);
                assert(t.drop_last() =~= lv.take(i as int));
                assert(t.last() == label_view(self.labels@[i as int]));
            }
            assert(lv[i as int] == label_view(self.labels@[i as int]));
            let ghost pa = place_all(mods, lv.take(i as int));
            match place_label(self.ctx.srcs, &self.labels[i]) {
                None => {
                    assert(place_all(mods, lv.take(i + 1)) == pa);
                },
                Some(x) => {
                    assert(place_all(mods, lv.take(i + 1)) == pa.push(placed_view(x)));
                    assert(pa.push(placed_view(x)).drop_last() =~= pa);
                    assert(sort_placed(pa.push(placed_view(x))) == insert_placed(sort_placed(pa), placed_view(x)));
                    let mut j: usize = out.len();
                    while j > 0 && !placed_le_exec(&out[j - 1], &x)
                        invariant
                            j <= out@.len(),
                            forall|k: int| j <= k < out@.len() ==> !placed_le(#[trigger] placed_views(out@)[k], placed_view(x)),
                        decreases j,
                    {
                        j = j - 1;
                    }
                    proof {
                        let so = placed_views(out@);
                        lemma_insert_placed_at(so, placed_view(x), j as int);
                    }
                    let ghost before = out@;
                    out.insert(j, x);
                    assert(placed_views(out@) =~= placed_views(before).insert(j as int, placed_view(x)));
                },
            }
            i = i + 1;
        }
        assert(lv.take(lv.len() as int) =~= lv);
        out
    }
}


/// The file and source text of each label whose module is at hand.
pub open spec fn source_pairs(mods: Seq<(ModId, ModSource)>, labels: Seq<(DiagSpan, Seq<char>, LabelColor)>) -> Seq<(Seq<char>, Seq<char>)>
    decreases labels.len(),
{
    if labels.len() == 0 {
        Seq::empty()
    } else {
        let rest = source_pairs(mods, labels.drop_last());
        match source_of(mods, labels.last().0.mod_id) {
            Some(m) => rest.push((spec_file_name(m.modu@), m.src@)),
            None => rest,
        }
    }
}

/// The text of the last pair of file `f`.
pub open spec fn last_text_for(pairs: Seq<(Seq<char>, Seq<char>)>, f: Seq<char>) -> Seq<char>
    decreases pairs.len(),
{
    if pairs.len() == 0 {
        Seq::empty()
    } else if pairs.last().0 == f {
        pairs.last().1
    } else {
        last_text_for(pairs.drop_last(), f)
    }
}

/// The files of the pairs, each once, in order of first appearance.
pub open spec fn files_once(pairs: Seq<(Seq<char>, Seq<char>)>) -> Seq<Seq<char>>
    decreases pairs.len(),
{
    if pairs.len() == 0 {
        Seq::empty()
    } else {
        let r = files_once(pairs.drop_last());
        if r.contains(pairs.last().0) {
            r
        } else {
            r.push(pairs.last().0)
        }
    }
}

pub open spec fn pair_views(s: Seq<(String, String)>) -> Seq<(Seq<char>, Seq<char>)> {
    s.map_values(|p: (String, String)| (p.0@, p.1@))
}

fn contains_string(v: &Vec<String>, s: &str) -> (r: bool)
    ensures
        r == string_views(v@).contains(s@),
{
    let mut i: usize = 0;
    while i < v.len()
        invariant
            i <= v@.len(),
            forall|k: int| 0 <= k < i ==> #[trigger] string_views(v@)[k] != s@,
        decreases v@.len() - i,
    {
        if str_eq(v[i].as_str(), s) {
            assert(string_views(v@)[i as int] == s@);
            return true;
        }
        i = i + 1;
    }
    false
}

fn last_text(pairs: &Vec<(String, String)>, f: &str) -> (r: String)
    ensures
        r@ == last_text_for(pair_views(pairs@), f@),
{
    let ghost pv = pair_views(pairs@);
    let mut j: usize = pairs.len();
    assert(pv.take(j as int) =~= pv);
    while j > 0
        invariant
            j <= pairs@.len(),
            pv == pair_views(pairs@),
            last_text_for(pv, f@) == last_text_for(pv.take(j as int), f@),
        decreases j,
    {
        proof {
            let t = pv.take(j as int);
            assert(t.drop_last() =~= pv.take(j - 1));
            assert(t.last() == (pairs@[j - 1].0@, pairs@[j - 1].1@));
        }
        if str_eq(pairs[j - 1].0.as_str(), f) {
            return pairs[j - 1].1.clone();
        }
        j = j - 1;
    }
    String::new()
}

impl<'a> Diagnostic<'a> {
    /// The sources the labels fall in, each file once, by file name, with
    /// its text; a file given twice to the renderer would be confused.
    pub fn sources(&self) -> (r: Vec<(String, String)>)
        ensures
            pair_views(r@) == {
                let pairs = source_pairs(self.context().srcs.mods@, self@.labels);
                sort_strs(files_once(pairs)).map_values(|f: Seq<char>| (f, last_text_for(pairs, f)))
            },
    {
        let ghost lv = self@.labels;
        let ghost mods = self.ctx.srcs.mods@;
        let mut pairs: Vec<(String, String)> = Vec::new();
        let mut files: Vec<String> = Vec::new();
        let mut i: usize = 0;
        assert(lv.take(0) =~= Seq::<(DiagSpan, Seq<char>, LabelColor)>::empty());
        assert(pair_views(pairs@) =~= Seq::<(Seq<char>, Seq<char>)>::empty());
        assert(string_views(files@) =~= Seq::<Seq<char>>::empty());
        while i < self.labels.len()
            invariant
                i <= self.labels@.len(),
                lv == self@.labels,
                mods == self.ctx.srcs.mods@,
                pair_views(pairs@) == source_pairs(mods, lv.take(i as int)),
                string_views(files@) == files_once(source_pairs(mods, lv.take(i as int))),
            decreases self.labels@.len() - i,
        {
            proof {
                let t = lv.take(i + 1);
                assert(t.drop_last() =~= lv.take(i as int));
                assert(t.last() == label_view(self.labels@[i as int]));
            }
            let ghost pa = source_pairs(mods, lv.take(i as int));
            match find_source(self.ctx.srcs, self.labels[i].0.mod_id) {
                None => {},
                Some(m) => {
                    let file = m.modu.file_name();
                    let text = m.src.clone();
                    let ghost entry = (file@, text@);
                    let ghost pb = pairs@;
                    let seen = contains_string(&files, file.as_str());
                    if !seen {
                        let ghost fb = files@;
                        files.push(file.clone());
                        assert(string_views(files@) =~= string_views(fb).push(file@));
                    }
                    pairs.push((file, text));
                    assert(pair_views(pairs@) =~= pair_views(pb).push(entry));
                    assert(source_pairs(mods, lv.take(i + 1)) == pa.push(entry));
                    assert(pa.push(entry).drop_last() =~= pa);
                },
            }
            i = i + 1;
        }
        assert(lv.take(lv.len() as int) =~= lv);
        let ghost pairs_v = pair_views(pairs@);
        let sorted = sort_strings(files);
        let ghost sv = string_views(sorted@);
        let mut out: Vec<(String, String)> = Vec::new();
        let mut k: usize = 0;
        assert(pair_views(out@) =~= Seq::<(Seq<char>, Seq<char>)>::empty());
        while k < sorted.len()
            invariant
                k <= sorted@.len(),
                sv == string_views(sorted@),
                pairs_v == pair_views(pairs@),
                pair_views(out@) == sv.take(k as int).map_values(|f: Seq<char>| (f, last_text_for(pairs_v, f))),
            decreases sorted@.len() - k,
        {
            let f = sorted[k].clone();
            let text = last_text(&pairs, f.as_str());
            let ghost ob = out@;
            assert(sv[k as int] == f@);
            out.push((f, text));
            assert(pair_views(out@) =~= pair_views(ob).push((sv[k as int], last_text_for(pairs_v, sv[k as int]))));
            assert(sv.take(k + 1).map_values(|f: Seq<char>| (f, last_text_for(pairs_v, f))) =~= sv.take(k as int).map_values(
                |f: Seq<char>| (f, last_text_for(pairs_v, f)),
            ).push((sv[k as int], last_text_for(pairs_v, sv[k as int]))));
            k = k + 1;
        }
        assert(sv.take(sv.len() as int) =~= sv);
        out
    }
}

} // verus!
