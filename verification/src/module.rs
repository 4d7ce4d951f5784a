//! Module paths inside a package and their file names.

use vstd::prelude::*;
use crate::decimal::{spec_split, split_chars, views_of, lemma_split_push_sep,
    lemma_split_append_plain, lemma_split_len};
use crate::text::{chars_eq, chars_of, push_char, push_chars, push_str, string_of_chars};

verus! {

#[derive(Clone, Debug, PartialEq, Eq, Hash)]
pub enum ModPath {
    Main,
    Lib,
    Mod(Vec<String>),
}

/// The abstract form of a module path.
pub ghost enum ModPathView {
    Main,
    Lib,
    Mod(Seq<Seq<char>>),
}

pub open spec fn strings_view(v: Seq<String>) -> Seq<Seq<char>> {
    v.map_values(|s: String| s@)
}

impl View for ModPath {
    type V = ModPathView;

    open spec fn view(&self) -> ModPathView {
        match self {
            ModPath::Main => ModPathView::Main,
            ModPath::Lib => ModPathView::Lib,
            ModPath::Mod(m) => ModPathView::Mod(strings_view(m@)),
        }
    }
}

/// `biwa`, the extension of source files.
pub open spec fn biwa_extension() -> Seq<char> {
    seq!['b', 'i', 'w', 'a']
}

pub open spec fn main_stem() -> Seq<char> {
    seq!['m', 'a', 'i', 'n']
}

pub open spec fn lib_stem() -> Seq<char> {
    seq!['l', 'i', 'b']
}

/// `ss` joined by `sep`.
pub open spec fn join(ss: Seq<Seq<char>>, sep: char) -> Seq<char>
    decreases ss.len(),
{
    if ss.len() == 0 {
        Seq::empty()
    } else if ss.len() == 1 {
        ss[0]
    } else {
        join(ss.drop_last(), sep) + seq![sep] + ss.last()
    }
}

/// The file name of a module: `main.biwa`, `lib.biwa`, or the path
/// segments joined by `/` with `.biwa` appended.
pub open spec fn spec_file_name(p: ModPathView) -> Seq<char> {
    let stem = match p {
        ModPathView::Main => main_stem(),
        ModPathView::Lib => lib_stem(),
        ModPathView::Mod(segs) => join(segs, '/'),
    };
    stem + seq!['.'] + biwa_extension()
}

/// The module path a file name stands for, if it ends in `.biwa`.
pub open spec fn spec_from_file_name(name: Seq<char>) -> Option<ModPathView> {
    let suffix = seq!['.'] + biwa_extension();
    if name.len() < suffix.len() || name.subrange(name.len() - suffix.len(), name.len() as int)
        != suffix {
        None
    } else {
        let stem = name.subrange(0, name.len() - suffix.len());
        if stem == main_stem() {
            Some(ModPathView::Main)
        } else if stem == lib_stem() {
            Some(ModPathView::Lib)
        } else {
            Some(ModPathView::Mod(spec_split(stem, '/')))
        }
    }
}

fn push_extension(s: &mut String)
    ensures
        final(s)@ == old(s)@ + seq!['.'] + biwa_extension(),
{
    push_char(s, '.');
    push_char(s, 'b');
    push_char(s, 'i');
    push_char(s, 'w');
    push_char(s, 'a');
    assert(s@ =~= old(s)@ + seq!['.'] + biwa_extension());
}

/// Pushes `segs` joined by `sep`.
pub fn push_joined(s: &mut String, segs: &Vec<String>, sep: char)
    ensures
        final(s)@ == old(s)@ + join(strings_view(segs@), sep),
{
    let ghost ss = strings_view(segs@);
    let mut i: usize = 0;
    assert(ss.take(0) =~= Seq::<Seq<char>>::empty());
    assert(s@ =~= old(s)@ + join(ss.take(0), sep));
    while i < segs.len()
        invariant
            i <= segs@.len(),
            ss == strings_view(segs@),
            s@ == old(s)@ + join(ss.take(i as int), sep),
        decreases segs@.len() - i,
    {
        let ghost before = s@;
        let ghost t = ss.take(i + 1);
        assert(t.drop_last() =~= ss.take(i as int));
        assert(t.last() == segs@[i as int]@);
        if i > 0 {
            push_char(s, sep);
        }
        push_str(s, segs[i].as_str());
        if i == 0 {
            assert(ss.take(0) =~= Seq::<Seq<char>>::empty());
            assert(s@ =~= old(s)@ + join(t, sep));
        } else {
            assert(s@ =~= old(s)@ + join(t, sep));
        }
        i = i + 1;
    }
    assert(ss.take(segs@.len() as int) =~= ss);
}

impl ModPath {
    pub fn file_name(&self) -> (r: String)
        ensures
            r@ == spec_file_name(self@),
    {
        let mut s = String::new();
        match self {
            ModPath::Main => {
                push_char(&mut s, 'm');
                push_char(&mut s, 'a');
                push_char(&mut s, 'i');
                push_char(&mut s, 'n');
            },
            ModPath::Lib => {
                push_char(&mut s, 'l');
                push_char(&mut s, 'i');
                push_char(&mut s, 'b');
            },
            ModPath::Mod(path) => {
                push_joined(&mut s, path, '/');
            },
        }
        push_extension(&mut s);
        assert(s@ =~= spec_file_name(self@));
        s
    }

    /// The inverse of [`Self::file_name`].
    ///
    /// Dependency metadata keeps modules by file name; this restores the
    /// module path from it.
    pub fn from_file_name(file_name: &str) -> (r: Option<ModPath>)
        ensures
            match spec_from_file_name(file_name@) {
                Some(v) => r matches Some(p) && p@ == v,
                None => r is None,
            },
    {
        let cs = chars_of(file_name);
        let suffix = ['.', 'b', 'i', 'w', 'a'];
        assert(suffix@ =~= seq!['.'] + biwa_extension());
        if cs.len() < 5 {
            return None;
        }
        let n = cs.len() - 5;
        let tail = slice_range(cs.as_slice(), n, cs.len());
        if !chars_eq(tail.as_slice(), &suffix) {
            return None;
        }
        let stem = slice_range(cs.as_slice(), 0, n);
        let main = ['m', 'a', 'i', 'n'];
        let lib = ['l', 'i', 'b'];
        assert(main@ =~= main_stem());
        assert(lib@ =~= lib_stem());
        if chars_eq(stem.as_slice(), &main) {
            return Some(ModPath::Main);
        }
        if chars_eq(stem.as_slice(), &lib) {
            return Some(ModPath::Lib);
        }
        let parts = split_chars(stem.as_slice(), '/');
        let mut segs: Vec<String> = Vec::new();
        let mut i: usize = 0;
        while i < parts.len()
            invariant
                i <= parts@.len(),
                strings_view(segs@) == views_of(parts@).take(i as int),
            decreases parts@.len() - i,
        {
            let seg = string_of_chars(parts[i].as_slice());
            let ghost before = segs@;
            segs.push(seg);
            assert(views_of(parts@)[i as int] == parts@[i as int]@);
            assert(strings_view(segs@) =~= strings_view(before).push(seg@));
            assert(views_of(parts@).take(i + 1) =~= views_of(parts@).take(i as int).push(parts@[i as int]@));
            i = i + 1;
            assert(strings_view(segs@) =~= views_of(parts@).take(i as int));
        }
        assert(views_of(parts@).take(parts@.len() as int) =~= views_of(parts@));
        Some(ModPath::Mod(segs))
    }

    pub fn push(self, child: String) -> (r: ModPath)
        ensures
            r@ == match self@ {
                ModPathView::Mod(m) => ModPathView::Mod(m.push(child@)),
                _ => ModPathView::Mod(seq![child@]),
            },
    {
        match self {
            ModPath::Main | ModPath::Lib => {
                let mut v = Vec::new();
                v.push(child);
                assert(strings_view(v@) =~= seq![child@]);
                ModPath::Mod(v)
            },
            ModPath::Mod(mut m) => {
                let ghost before = m@;
                m.push(child);
                assert(strings_view(m@) =~= strings_view(before).push(child@));
                ModPath::Mod(m)
            },
        }
    }

    pub fn extend(self, path: Vec<String>) -> (r: ModPath)
        ensures
            r@ == match self@ {
                ModPathView::Mod(m) => ModPathView::Mod(m + strings_view(path@)),
                _ => ModPathView::Mod(strings_view(path@)),
            },
    {
        match self {
            ModPath::Main | ModPath::Lib => ModPath::Mod(path),
            ModPath::Mod(mut m) => {
                let ghost before = m@;
                let mut p = path;
                let ghost pv = p@;
                m.append(&mut p);
                assert(strings_view(m@) =~= strings_view(before) + strings_view(pv));
                ModPath::Mod(m)
            },
        }
    }

    /// The path segments: none for the root modules.
    pub fn into_segments(self) -> (r: Vec<String>)
        ensures
            strings_view(r@) == match self@ {
                ModPathView::Mod(m) => m,
                _ => Seq::empty(),
            },
    {
        match self {
            ModPath::Main | ModPath::Lib => {
                let v: Vec<String> = Vec::new();
                assert(strings_view(v@) =~= Seq::<Seq<char>>::empty());
                v
            },
            ModPath::Mod(m) => m,
        }
    }
}

/// The characters `cs[from..to]`.
fn slice_range(cs: &[char], from: usize, to: usize) -> (r: Vec<char>)
    requires
        from <= to <= cs@.len(),
    ensures
        r@ == cs@.subrange(from as int, to as int),
{
    let mut v = Vec::new();
    let mut i = from;
    while i < to
        invariant
            from <= i <= to,
            to <= cs@.len(),
            v@ == cs@.subrange(from as int, i as int),
        decreases to - i,
    {
        v.push(cs[i]);
        i = i + 1;
        assert(v@ =~= cs@.subrange(from as int, i as int));
    }
    v
}

/// Path segments that a file name can carry: at least one segment, none
/// holding `/`, and not the single segment `main` or `lib` (those name the
/// root modules).
pub open spec fn segments_round_trip(segs: Seq<Seq<char>>) -> bool {
    &&& segs.len() > 0
    &&& forall|i: int, k: int| 0 <= i < segs.len() && 0 <= k < segs[i].len() ==> #[trigger] segs[i][k] != '/'
    &&& segs != seq![main_stem()]
    &&& segs != seq![lib_stem()]
}

/// Splitting a join of `/`-free segments at `/` gives the segments back.
pub proof fn lemma_split_join(segs: Seq<Seq<char>>)
    requires
        segs.len() > 0,
        forall|i: int, k: int| 0 <= i < segs.len() && 0 <= k < segs[i].len() ==> #[trigger] segs[i][k] != '/',
    ensures
        spec_split(join(segs, '/'), '/') == segs,
    decreases segs.len(),
{
    let last = segs.last();
    assert forall|k: int| 0 <= k < last.len() implies last[k] != '/' by {
        assert(segs[segs.len() - 1][k] != '/');
    }
    if segs.len() == 1 {
        let e = Seq::<char>::empty();
        lemma_split_append_plain(e, segs[0], '/');
        assert(e + segs[0] =~= segs[0]);
        assert(spec_split(e, '/') =~= seq![e]);
        assert(seq![e].last() + segs[0] =~= segs[0]);
        assert(spec_split(segs[0], '/') =~= segs);
    } else {
        let init = segs.drop_last();
        assert forall|i: int, k: int| 0 <= i < init.len() && 0 <= k < init[i].len() implies #[trigger] init[i][k] != '/' by {
            assert(init[i] == segs[i]);
        }
        lemma_split_join(init);
        let j = join(init, '/');
        lemma_split_push_sep(j, '/');
        lemma_split_append_plain(j + seq!['/'], last, '/');
        let r = spec_split(j + seq!['/'], '/');
        assert(r == init.push(Seq::empty()));
        assert(Seq::<char>::empty() + last =~= last);
        assert(r.update(r.len() - 1, r.last() + last) =~= segs);
    }
}

/// Reading back the file name of a module gives the module, for every
/// module whose segments a file name can carry.
pub proof fn lemma_file_name_round_trip(p: ModPathView)
    requires
        p matches ModPathView::Mod(segs) ==> segments_round_trip(segs),
    ensures
        spec_from_file_name(spec_file_name(p)) == Some(p),
{
    let name = spec_file_name(p);
    let suffix = seq!['.'] + biwa_extension();
    let stem = match p {
        ModPathView::Main => main_stem(),
        ModPathView::Lib => lib_stem(),
        ModPathView::Mod(segs) => join(segs, '/'),
    };
    assert(name == stem + suffix);
    assert(name.subrange(name.len() - suffix.len(), name.len() as int) =~= suffix);
    assert(name.subrange(0, name.len() - suffix.len()) =~= stem);
    match p {
        ModPathView::Mod(segs) => {
            lemma_split_join(segs);
            if stem == main_stem() {
                assert(spec_split(main_stem(), '/') =~= seq![main_stem()]) by {
                    lemma_split_join(seq![main_stem()]);
                }
            }
            if stem == lib_stem() {
                assert(spec_split(lib_stem(), '/') =~= seq![lib_stem()]) by {
                    lemma_split_join(seq![lib_stem()]);
                }
            }
        },
        _ => {},
    }
}

} // verus!
