//! `slbe_files.txt`: which image files, tinted with which colour, make up
//! each balloon; and the naming rules of balloon images.
use vstd::prelude::*;
use crate::descript::{comment_mark, str_eq};
use crate::num::{int_numeral, nat_digits, nat_to_string};
use crate::text::{
    chars_of, find_char, find_char_in, join, lemma_find_char, push_char, push_range, push_str,
    split_lines, starts_with, str_lowercase, string_of, to_lowercase, trim, trim_bounds,
};
use crate::descript::next_line;

verus! {

/// Which colour of the colour set tints a layer.
#[derive(Debug, Clone, Copy, PartialEq, Eq, Structural)]
pub enum ColorType {
    Base,
    Edge,
    Text,
    NoColor,
}

/// The colour type a lower-cased name denotes.
pub open spec fn color_type_named(low: Seq<char>) -> Option<ColorType> {
    if low == "base"@ {
        Some(ColorType::Base)
    } else if low == "edge"@ {
        Some(ColorType::Edge)
    } else if low == "text"@ {
        Some(ColorType::Text)
    } else if low == "none"@ {
        Some(ColorType::NoColor)
    } else {
        None
    }
}

/// Message for an unknown colour type (given lower-cased).
pub open spec fn unknown_color_type_msg(low: Seq<char>) -> Seq<char> {
    "不明な color_type 「"@ + low + "」。使用可能: base, edge, text, none"@
}

impl ColorType {
    /// Reads `base`, `edge`, `text` or `none`, in any case.
    pub fn parse(s: &str) -> (r: Result<ColorType, String>)
        ensures
            match color_type_named(str_lowercase(s@)) {
                Some(t) => r == Ok::<ColorType, String>(t),
                None => r is Err && r->Err_0@ == unknown_color_type_msg(str_lowercase(s@)),
            },
    {
        let low = to_lowercase(s);
        if str_eq(low.as_str(), "base") {
            Ok(ColorType::Base)
        } else if str_eq(low.as_str(), "edge") {
            Ok(ColorType::Edge)
        } else if str_eq(low.as_str(), "text") {
            Ok(ColorType::Text)
        } else if str_eq(low.as_str(), "none") {
            Ok(ColorType::NoColor)
        } else {
            let mut m = String::new();
            push_str(&mut m, "不明な color_type 「");
            push_str(&mut m, low.as_str());
            push_str(&mut m, "」。使用可能: base, edge, text, none");
            Err(m)
        }
    }
}

/// One layer: an image file name and the colour that tints it.
pub open spec fn layer_view(l: (String, ColorType)) -> (Seq<char>, ColorType) {
    (l.0@, l.1)
}

/// Views of a layer list.
pub open spec fn layers_view(ls: Seq<(String, ColorType)>) -> Seq<(Seq<char>, ColorType)> {
    ls.map_values(|l: (String, ColorType)| layer_view(l))
}

/// Layers of one balloon, back to front.
pub type LayerList = Vec<(String, ColorType)>;

/// Balloon name → layer list, as `slbe_files.txt` defines it. Each name
/// occurs once; entries keep the order in which names first appeared.
#[derive(Debug)]
pub struct Layout {
    entries: Vec<(String, LayerList)>,
}

impl View for Layout {
    type V = Map<Seq<char>, Seq<(Seq<char>, ColorType)>>;

    closed spec fn view(&self) -> Map<Seq<char>, Seq<(Seq<char>, ColorType)>> {
        Map::new(
            |k: Seq<char>| exists|i: int| 0 <= i < self.entries@.len() && self.entries@[i].0@ == k,
            |k: Seq<char>|
                layers_view(
                    self.entries@[choose|i: int|
                        0 <= i < self.entries@.len() && self.entries@[i].0@ == k].1@,
                ),
        )
    }
}

impl Layout {
    /// The names, in the order the entries are kept.
    pub closed spec fn names(&self) -> Seq<Seq<char>> {
        self.entries@.map_values(|e: (String, LayerList)| e.0@)
    }

    /// Well-formed: no name twice.
    pub closed spec fn wf(&self) -> bool {
        forall|i: int, j: int|
            0 <= i < j < self.entries@.len() ==> self.entries@[i].0@ != self.entries@[j].0@
    }

    proof fn lemma_view_at(&self, i: int)
        requires
            self.wf(),
            0 <= i < self.entries@.len(),
        ensures
            self@.contains_key(self.entries@[i].0@),
            self@[self.entries@[i].0@] == layers_view(self.entries@[i].1@),
    {
        let k = self.entries@[i].0@;
        assert(self@.dom().contains(k));
        let j = choose|j: int| 0 <= j < self.entries@.len() && self.entries@[j].0@ == k;
        assert(j == i);
    }

    /// The balloon names, in entry order.
    pub fn keys(&self) -> (r: Vec<String>)
        requires
            self.wf(),
        ensures
            views(r@) == self.names(),
            views(r@).to_set() == self@.dom(),
            views(r@).no_duplicates(),
    {
        let mut r: Vec<String> = Vec::new();
        let mut i: usize = 0;
        while i < self.entries.len()
            invariant
                i <= self.entries@.len(),
                views(r@) == self.names().take(i as int),
            decreases self.entries@.len() - i,
        {
            let ghost r0 = r@;
            let k = self.entries[i].0.clone();
            r.push(k);
            assert(r@ == r0.push(k));
            assert(views(r@) =~= views(r0).push(k@));
            assert(self.names().take(i + 1) =~= self.names().take(i as int).push(k@));
            i = i + 1;
        }
        assert(self.names().take(self.entries@.len() as int) =~= self.names());
        proof {
            self.lemma_dom_is_names();
        }
        r
    }

    /// An empty layout.
    pub fn new() -> (l: Layout)
        ensures
            l.wf(),
            l@ == Map::<Seq<char>, Seq<(Seq<char>, ColorType)>>::empty(),
            l.names().len() == 0,
    {
        let l = Layout { entries: Vec::new() };
        assert(l@ =~= Map::<Seq<char>, Seq<(Seq<char>, ColorType)>>::empty());
        l
    }

    /// Number of balloons.
    pub fn len(&self) -> (n: usize)
        requires
            self.wf(),
        ensures
            n == self@.len(),
            n == self.names().len(),
    {
        proof {
            self.lemma_dom_is_names();
        }
        self.entries.len()
    }

    proof fn lemma_dom_is_names(&self)
        requires
            self.wf(),
        ensures
            self@.dom() == self.names().to_set(),
            self@.len() == self.names().len(),
            self.names().no_duplicates(),
    {
        assert forall|k: Seq<char>| self@.dom().contains(k) <==> self.names().to_set().contains(k) by {
            if self@.dom().contains(k) {
                let i = choose|i: int| 0 <= i < self.entries@.len() && self.entries@[i].0@ == k;
                assert(self.names()[i] == k);
            }
            if self.names().contains(k) {
                let i = choose|i: int| 0 <= i < self.names().len() && self.names()[i] == k;
                assert(self.entries@[i].0@ == k);
            }
        }
        assert(self@.dom() =~= self.names().to_set());
        assert(self.names().no_duplicates());
        self.names().unique_seq_to_set();
    }

    /// No balloons at all.
    pub fn is_empty(&self) -> (b: bool)
        requires
            self.wf(),
        ensures
            b == (self@.len() == 0),
    {
        proof {
            self.lemma_dom_is_names();
        }
        self.entries.len() == 0
    }

    /// Index of the entry named `name`.
    fn index_of(&self, name: &str) -> (r: Option<usize>)
        requires
            self.wf(),
        ensures
            match r {
                Some(i) => i < self.entries@.len() && self.entries@[i as int].0@ == name@,
                None => !self@.contains_key(name@),
            },
    {
        let mut i: usize = 0;
        while i < self.entries.len()
            invariant
                i <= self.entries@.len(),
                forall|j: int| 0 <= j < i ==> self.entries@[j].0@ != name@,
            decreases self.entries@.len() - i,
        {
            if str_eq(self.entries[i].0.as_str(), name) {
                return Some(i);
            }
            i = i + 1;
        }
        None
    }

    /// Whether a balloon of that name is defined.
    pub fn contains_key(&self, name: &str) -> (b: bool)
        requires
            self.wf(),
        ensures
            b == self@.contains_key(name@),
    {
        match self.index_of(name) {
            Some(i) => {
                proof {
                    self.lemma_view_at(i as int);
                }
                true
            },
            None => false,
        }
    }

    /// The layers of the balloon of that name.
    pub fn get(&self, name: &str) -> (r: Option<&LayerList>)
        requires
            self.wf(),
        ensures
            match r {
                Some(l) => self@.contains_key(name@) && self@[name@] == layers_view(l@),
                None => !self@.contains_key(name@),
            },
    {
        match self.index_of(name) {
            Some(i) => {
                proof {
                    self.lemma_view_at(i as int);
                }
                Some(&self.entries[i].1)
            },
            None => None,
        }
    }

    /// The `i`-th name in entry order.
    pub fn name_at(&self, i: usize) -> (s: &String)
        requires
            i < self.names().len(),
        ensures
            s@ == self.names()[i as int],
    {
        &self.entries[i].0
    }

    /// Sets the layers of `name`, replacing an earlier definition.
    pub fn insert(&mut self, name: String, layers: LayerList)
        requires
            old(self).wf(),
        ensures
            final(self).wf(),
            final(self)@ == old(self)@.insert(name@, layers_view(layers@)),
            old(self)@.contains_key(name@) ==> final(self).names() == old(self).names(),
            !old(self)@.contains_key(name@) ==> final(self).names() == old(self).names().push(name@),
    {
        match self.index_of(name.as_str()) {
            Some(i) => {
                let ghost old_entries = self.entries@;
                self.entries.set(i, (name, layers));
                proof {
                    assert forall|k: Seq<char>| #![trigger self@.contains_key(k)]
                        self@.contains_key(k) == old(self)@.insert(name@, layers_view(layers@)).contains_key(k) by {
                        if k == name@ {
                            assert(self.entries@[i as int].0@ == k);
                        } else if old(self)@.contains_key(k) {
                            let j = choose|j: int| 0 <= j < old_entries.len() && old_entries[j].0@ == k;
                            assert(self.entries@[j].0@ == k);
                        }
                    }
                    assert forall|k: Seq<char>| #[trigger] self@.contains_key(k) implies self@[k] == old(self)@.insert(name@, layers_view(layers@))[k] by {
                        let j = choose|j: int| 0 <= j < self.entries@.len() && self.entries@[j].0@ == k;
                        self.lemma_view_at(j);
                        if j != i {
                            old(self).lemma_view_at(j);
                        }
                    }
                    assert(self@ =~= old(self)@.insert(name@, layers_view(layers@)));
                    assert(self.names() =~= old(self).names());
                }
            },
            None => {
                let ghost old_entries = self.entries@;
                self.entries.push((name, layers));
                proof {
                    let n = old_entries.len() as int;
                    assert forall|k: Seq<char>| #![trigger self@.contains_key(k)]
                        self@.contains_key(k) == old(self)@.insert(name@, layers_view(layers@)).contains_key(k) by {
                        if k == name@ {
                            assert(self.entries@[n].0@ == k);
                        } else if old(self)@.contains_key(k) {
                            let j = choose|j: int| 0 <= j < old_entries.len() && old_entries[j].0@ == k;
                            assert(self.entries@[j].0@ == k);
                        }
                    }
                    assert forall|k: Seq<char>| #[trigger] self@.contains_key(k) implies self@[k] == old(self)@.insert(name@, layers_view(layers@))[k] by {
                        let j = choose|j: int| 0 <= j < self.entries@.len() && self.entries@[j].0@ == k;
                        self.lemma_view_at(j);
                        if j != n {
                            old(self).lemma_view_at(j);
                        }
                    }
                    assert(self@ =~= old(self)@.insert(name@, layers_view(layers@)));
                    assert(self.names() =~= old(self).names().push(name@));
                }
            },
        }
    }
}

/// Balloon name → balloon name; each name occurs once as a key.
#[derive(Debug)]
pub struct NameMap {
    entries: Vec<(String, String)>,
}

impl View for NameMap {
    type V = Map<Seq<char>, Seq<char>>;

    closed spec fn view(&self) -> Map<Seq<char>, Seq<char>> {
        Map::new(
            |k: Seq<char>| exists|i: int| 0 <= i < self.entries@.len() && self.entries@[i].0@ == k,
            |k: Seq<char>|
                self.entries@[choose|i: int|
                    0 <= i < self.entries@.len() && self.entries@[i].0@ == k].1@,
        )
    }
}

impl NameMap {
    /// Well-formed: no key twice.
    pub closed spec fn wf(&self) -> bool {
        forall|i: int, j: int|
            0 <= i < j < self.entries@.len() ==> self.entries@[i].0@ != self.entries@[j].0@
    }

    /// The keys, in the order the entries are kept.
    pub closed spec fn key_list(&self) -> Seq<Seq<char>> {
        self.entries@.map_values(|e: (String, String)| e.0@)
    }

    proof fn lemma_view_at(&self, i: int)
        requires
            self.wf(),
            0 <= i < self.entries@.len(),
        ensures
            self@.contains_key(self.entries@[i].0@),
            self@[self.entries@[i].0@] == self.entries@[i].1@,
    {
        let k = self.entries@[i].0@;
        assert(self@.dom().contains(k));
        let j = choose|j: int| 0 <= j < self.entries@.len() && self.entries@[j].0@ == k;
        assert(j == i);
    }

    proof fn lemma_keys(&self)
        requires
            self.wf(),
        ensures
            self@.dom() == self.key_list().to_set(),
            self@.len() == self.key_list().len(),
            self.key_list().no_duplicates(),
    {
        assert forall|k: Seq<char>| self@.dom().contains(k) <==> self.key_list().to_set().contains(k) by {
            if self@.dom().contains(k) {
                let i = choose|i: int| 0 <= i < self.entries@.len() && self.entries@[i].0@ == k;
                assert(self.key_list()[i] == k);
            }
            if self.key_list().contains(k) {
                let i = choose|i: int| 0 <= i < self.key_list().len() && self.key_list()[i] == k;
                assert(self.entries@[i].0@ == k);
            }
        }
        assert(self@.dom() =~= self.key_list().to_set());
        self.key_list().unique_seq_to_set();
    }

    /// An empty map.
    pub fn new() -> (m: NameMap)
        ensures
            m.wf(),
            m@ == Map::<Seq<char>, Seq<char>>::empty(),
    {
        let m = NameMap { entries: Vec::new() };
        assert(m@ =~= Map::<Seq<char>, Seq<char>>::empty());
        m
    }

    /// Number of keys.
    pub fn len(&self) -> (n: usize)
        requires
            self.wf(),
        ensures
            n == self@.len(),
    {
        proof {
            self.lemma_keys();
        }
        self.entries.len()
    }

    fn index_of(&self, name: &str) -> (r: Option<usize>)
        requires
            self.wf(),
        ensures
            match r {
                Some(i) => i < self.entries@.len() && self.entries@[i as int].0@ == name@,
                None => !self@.contains_key(name@),
            },
    {
        let mut i: usize = 0;
        while i < self.entries.len()
            invariant
                i <= self.entries@.len(),
                forall|j: int| 0 <= j < i ==> self.entries@[j].0@ != name@,
            decreases self.entries@.len() - i,
        {
            if str_eq(self.entries[i].0.as_str(), name) {
                return Some(i);
            }
            i = i + 1;
        }
        None
    }

    /// Whether `name` is a key.
    pub fn contains_key(&self, name: &str) -> (b: bool)
        requires
            self.wf(),
        ensures
            b == self@.contains_key(name@),
    {
        match self.index_of(name) {
            Some(i) => {
                proof {
                    self.lemma_view_at(i as int);
                }
                true
            },
            None => false,
        }
    }

    /// The name `name` maps to.
    pub fn get(&self, name: &str) -> (r: Option<&String>)
        requires
            self.wf(),
        ensures
            match r {
                Some(v) => self@.contains_key(name@) && self@[name@] == v@,
                None => !self@.contains_key(name@),
            },
    {
        match self.index_of(name) {
            Some(i) => {
                proof {
                    self.lemma_view_at(i as int);
                }
                Some(&self.entries[i].1)
            },
            None => None,
        }
    }

    /// The keys, in entry order.
    pub fn keys(&self) -> (r: Vec<String>)
        requires
            self.wf(),
        ensures
            views(r@) == self.key_list(),
            views(r@).to_set() == self@.dom(),
            views(r@).no_duplicates(),
    {
        let mut r: Vec<String> = Vec::new();
        let mut i: usize = 0;
        while i < self.entries.len()
            invariant
                i <= self.entries@.len(),
                views(r@) == self.key_list().take(i as int),
            decreases self.entries@.len() - i,
        {
            let ghost r0 = r@;
            let k = self.entries[i].0.clone();
            r.push(k);
            assert(r@ == r0.push(k));
            assert(views(r@) =~= views(r0).push(k@));
            assert(self.key_list().take(i + 1) =~= self.key_list().take(i as int).push(k@));
            i = i + 1;
        }
        assert(self.key_list().take(self.entries@.len() as int) =~= self.key_list());
        proof {
            self.lemma_keys();
        }
        r
    }

    /// Maps `name` to `target`, replacing an earlier target.
    pub fn insert(&mut self, name: String, target: String)
        requires
            old(self).wf(),
        ensures
            final(self).wf(),
            final(self)@ == old(self)@.insert(name@, target@),
    {
        let ghost old_entries = self.entries@;
        let idx = self.index_of(name.as_str());
        let ghost pos: int = match idx {
            Some(i) => i as int,
            None => old_entries.len() as int,
        };
        match idx {
            Some(i) => {
                self.entries.set(i, (name, target));
            },
            None => {
                self.entries.push((name, target));
            },
        }
        proof {
            assert(self.entries@[pos].0@ == name@);
            assert forall|k: Seq<char>| #![trigger self@.contains_key(k)]
                self@.contains_key(k) == old(self)@.insert(name@, target@).contains_key(k) by {
                if k == name@ {
                    assert(self.entries@[pos].0@ == k);
                } else if old(self)@.contains_key(k) {
                    let j = choose|j: int| 0 <= j < old_entries.len() && old_entries[j].0@ == k;
                    assert(self.entries@[j].0@ == k);
                }
            }
            assert forall|k: Seq<char>| #[trigger] self@.contains_key(k) implies self@[k] == old(self)@.insert(name@, target@)[k] by {
                let j = choose|j: int| 0 <= j < self.entries@.len() && self.entries@[j].0@ == k;
                self.lemma_view_at(j);
                if j != pos {
                    old(self).lemma_view_at(j);
                }
            }
            assert(self@ =~= old(self)@.insert(name@, target@));
        }
    }
}

/// The pieces of `s` between occurrences of `c` (`str::split`); always at least one.
pub open spec fn split_by(s: Seq<char>, c: char) -> Seq<Seq<char>>
    decreases s.len(),
{
    proof {
        lemma_find_char(s, c);
    }
    match find_char(s, c) {
        None => seq![s],
        Some(i) => seq![s.take(i)] + split_by(s.skip(i + 1), c),
    }
}

/// A layer file name that could leave the balloon folder: it holds a path
/// separator or is `..`.
pub open spec fn bad_file_name(f: Seq<char>) -> bool {
    f.contains('/') || f.contains('\\') || f == ".."@
}

/// State of the fold over a balloon line's layer tokens: the layers
/// accepted, whether an error occurred, and the error messages.
pub type TokenState = (Seq<(Seq<char>, ColorType)>, bool, Seq<Seq<char>>);

/// One layer token (`file.png:color_type`) applied to the fold state.
/// `head` is `行{n} [{name}]: `.
pub open spec fn token_step(st: TokenState, tok: Seq<char>, head: Seq<char>, present: Seq<Seq<char>>) -> TokenState {
    let (ls, he, es) = st;
    let t = trim(tok);
    if t.len() == 0 {
        st
    } else {
        match find_char(t, ':') {
            None => (
                ls,
                true,
                es.push(head + "「"@ + t + "」に color_type がありません。書式: ファイル名.png:color_type"@),
            ),
            Some(p) => {
                let f = trim(t.take(p));
                let low = str_lowercase(trim(t.skip(p + 1)));
                if bad_file_name(f) {
                    (ls, true, es.push(head + "不正なファイル名 → "@ + f))
                } else {
                    match color_type_named(low) {
                        None => (ls, true, es.push(head + unknown_color_type_msg(low))),
                        Some(ct) => if present.contains(f) {
                            (ls.push((f, ct)), he, es)
                        } else {
                            (ls, true, es.push(head + "ファイルが見つかりません → "@ + f))
                        },
                    }
                }
            },
        }
    }
}

/// The fold over a balloon line's layer tokens.
pub open spec fn tokens_result(toks: Seq<Seq<char>>, head: Seq<char>, present: Seq<Seq<char>>) -> TokenState
    decreases toks.len(),
{
    if toks.len() == 0 {
        (Seq::empty(), false, Seq::empty())
    } else {
        token_step(tokens_result(toks.drop_last(), head, present), toks.last(), head, present)
    }
}

/// What line number `n` of `slbe_files.txt` contributes: the balloon entry
/// it defines (if any) and its error messages.
pub open spec fn layout_line(raw: Seq<char>, n: int, present: Seq<Seq<char>>) -> (
    Option<(Seq<char>, Seq<(Seq<char>, ColorType)>)>,
    Seq<Seq<char>>,
) {
    let line = trim(raw);
    if line.len() == 0 || starts_with(line, comment_mark()) {
        (None, Seq::empty())
    } else {
        let parts = split_by(line, ',');
        let name = trim(parts[0]);
        if name.len() == 0 {
            (None, seq!["行"@ + int_numeral(n) + ": バルーン名が空です。"@])
        } else if parts.len() < 2 {
            (
                None,
                seq![
                    "行"@ + int_numeral(n) + " ["@ + name
                        + "]: レイヤー指定がありません。書式: balloonNAME,file.png:color_type,..."@,
                ],
            )
        } else {
            let head = "行"@ + int_numeral(n) + " ["@ + name + "]: "@;
            let (ls, he, es) = tokens_result(parts.skip(1), head, present);
            (
                if !he || ls.len() > 0 {
                    Some((name, ls))
                } else {
                    None
                },
                es,
            )
        }
    }
}

/// The fold over all lines: the balloon map and all error messages.
pub open spec fn layout_lines(ls: Seq<Seq<char>>, present: Seq<Seq<char>>) -> (
    Map<Seq<char>, Seq<(Seq<char>, ColorType)>>,
    Seq<Seq<char>>,
)
    decreases ls.len(),
{
    if ls.len() == 0 {
        (Map::empty(), Seq::empty())
    } else {
        let (m, es) = layout_lines(ls.drop_last(), present);
        let (entry, les) = layout_line(ls.last(), ls.len() as int, present);
        (
            match entry {
                Some(e) => m.insert(e.0, e.1),
                None => m,
            },
            es + les,
        )
    }
}

/// Error messages, each as a bullet line.
pub open spec fn bullets(es: Seq<Seq<char>>) -> Seq<Seq<char>> {
    es.map_values(|e: Seq<char>| "  • "@ + e)
}

/// The message reporting all errors of a layout text.
pub open spec fn layout_error_message(es: Seq<Seq<char>>) -> Seq<char> {
    "slbe_files.txt にエラーがあります:\n\n"@ + join(bullets(es), "\n"@)
}

/// Whether `name` is among `present`.
fn name_present(present: &Vec<String>, name: &Vec<char>, a: usize, b: usize) -> (r: bool)
    requires
        a <= b <= name.len(),
    ensures
        r == present@.map_values(|s: String| s@).contains(name@.subrange(a as int, b as int)),
{
    let ghost ps = present@.map_values(|s: String| s@);
    let n = string_of(name, a, b);
    let mut i: usize = 0;
    while i < present.len()
        invariant
            i <= present.len(),
            ps == present@.map_values(|s: String| s@),
            n@ == name@.subrange(a as int, b as int),
            forall|j: int| 0 <= j < i ==> ps[j] != n@,
        decreases present.len() - i,
    {
        if str_eq(present[i].as_str(), n.as_str()) {
            assert(ps[i as int] == n@);
            return true;
        }
        i = i + 1;
    }
    false
}

/// The views of a list of strings.
pub open spec fn views(v: Seq<String>) -> Seq<Seq<char>> {
    v.map_values(|s: String| s@)
}

/// `a ++ b ++ c` as a new string.
fn concat3(a: &str, b: &str, c: &str) -> (s: String)
    ensures
        s@ == a@ + b@ + c@,
{
    let mut s = String::new();
    push_str(&mut s, a);
    push_str(&mut s, b);
    push_str(&mut s, c);
    assert(s@ =~= a@ + b@ + c@);
    s
}

/// Applies `token_step` for the token `v[ta..tb]`.
fn apply_token(
    v: &Vec<char>,
    ta: usize,
    tb: usize,
    head: &String,
    present: &Vec<String>,
    layers: &mut LayerList,
    has_error: &mut bool,
    errs: &mut Vec<String>,
)
    requires
        ta <= tb <= v.len(),
    ensures
        (layers_view(final(layers)@), *final(has_error), views(final(errs)@)) == token_step(
            (layers_view(old(layers)@), *old(has_error), views(old(errs)@)),
            v@.subrange(ta as int, tb as int),
            head@,
            views(present@),
        ),
{
    let ghost tok = v@.subrange(ta as int, tb as int);
    let (s, e) = trim_bounds(v, ta, tb);
    let ghost t = v@.subrange(s as int, e as int);
    if s == e {
        return;
    }
    match find_char_in(v, s, e, ':') {
        None => {
            let tt = string_of(v, s, e);
            let m1 = concat3(head.as_str(), "「", tt.as_str());
            let mut msg = m1;
            push_str(&mut msg, "」に color_type がありません。書式: ファイル名.png:color_type");
            errs.push(msg);
            *has_error = true;
            proof {
                assert(views(errs@) =~= views(old(errs)@).push(msg@));
            }
        },
        Some(p) => {
            let (fa, fb) = trim_bounds(v, s, p);
            let (ca, cb) = trim_bounds(v, p + 1, e);
            assert(t.take(p - s) =~= v@.subrange(s as int, p as int));
            assert(t.skip(p - s + 1) =~= v@.subrange(p + 1, e as int));
            let f = string_of(v, fa, fb);
            let cs = string_of(v, ca, cb);
            let fv = chars_of(f.as_str());
            let bad = match find_char_in(&fv, 0, fv.len(), '/') {
                Some(_) => true,
                None => match find_char_in(&fv, 0, fv.len(), '\\') {
                    Some(_) => true,
                    None => str_eq(f.as_str(), ".."),
                },
            };
            proof {
                assert(fv@.subrange(0, fv@.len() as int) =~= fv@);
                lemma_find_char(fv@, '/');
                lemma_find_char(fv@, '\\');
                if fv@.contains('/') {
                    let k = choose|k: int| 0 <= k < fv@.len() && fv@[k] == '/';
                }
                if fv@.contains('\\') {
                    let k = choose|k: int| 0 <= k < fv@.len() && fv@[k] == '\\';
                }
            }
            if bad {
                let msg = concat3(head.as_str(), "不正なファイル名 → ", f.as_str());
                errs.push(msg);
                *has_error = true;
                proof {
                    assert(views(errs@) =~= views(old(errs)@).push(msg@));
                }
                return;
            }
            match ColorType::parse(cs.as_str()) {
                Err(m) => {
                    let mut msg = String::new();
                    push_str(&mut msg, head.as_str());
                    push_str(&mut msg, m.as_str());
                    errs.push(msg);
                    *has_error = true;
                    proof {
                        assert(views(errs@) =~= views(old(errs)@).push(msg@));
                    }
                },
                Ok(ct) => {
                    if name_present(present, v, fa, fb) {
                        layers.push((f, ct));
                        proof {
                            assert(layers_view(layers@) =~= layers_view(old(layers)@).push((f@, ct)));
                        }
                    } else {
                        let msg = concat3(head.as_str(), "ファイルが見つかりません → ", f.as_str());
                        errs.push(msg);
                        *has_error = true;
                        proof {
                            assert(views(errs@) =~= views(old(errs)@).push(msg@));
                        }
                    }
                },
            }
        },
    }
}


/// `"行{n}"`.
fn line_label(n: usize) -> (s: String)
    ensures
        s@ == "行"@ + int_numeral(n as int),
{
    let mut s = String::new();
    push_str(&mut s, "行");
    let d = nat_to_string(n as u64);
    push_str(&mut s, d.as_str());
    s
}

/// Reads line number `n`, the line `v[a..b]`, into `layout` and `errs`.
fn read_layout_line(
    v: &Vec<char>,
    a: usize,
    b: usize,
    n: usize,
    present: &Vec<String>,
    layout: &mut Layout,
    errs: &mut Vec<String>,
)
    requires
        a <= b <= v.len(),
        old(layout).wf(),
    ensures
        final(layout).wf(),
        ({
            let (entry, les) = layout_line(v@.subrange(a as int, b as int), n as int, views(present@));
            &&& final(layout)@ == match entry {
                Some(e) => old(layout)@.insert(e.0, e.1),
                None => old(layout)@,
            }
            &&& views(final(errs)@) == views(old(errs)@) + les
        }),
{
    let ghost raw = v@.subrange(a as int, b as int);
    let (s, e) = trim_bounds(v, a, b);
    let ghost line = v@.subrange(s as int, e as int);
    if s == e {
        assert(views(errs@) =~= views(errs@) + Seq::<Seq<char>>::empty());
        return;
    }
    if e - s >= 2 && v[s] == '/' && v[s + 1] == '/' {
        assert(line.subrange(0, 2) =~= comment_mark());
        assert(views(errs@) =~= views(errs@) + Seq::<Seq<char>>::empty());
        return;
    }
    proof {
        if starts_with(line, comment_mark()) {
            assert(line.subrange(0, 2)[0] == '/');
            assert(line.subrange(0, 2)[1] == '/');
        }
    }
    let ghost parts = split_by(line, ',');
    proof {
        lemma_find_char(line, ',');
    }
    let comma = find_char_in(v, s, e, ',');
    let name_end = match comma {
        Some(c) => c,
        None => e,
    };
    proof {
        if let Some(c) = comma {
            assert(parts[0] == line.take(c - s));
            assert(line.take(c - s) =~= v@.subrange(s as int, c as int));
        } else {
            assert(parts[0] == line);
        }
    }
    let (na, nb) = trim_bounds(v, s, name_end);
    let ghost name = v@.subrange(na as int, nb as int);
    let label = line_label(n);
    if na == nb {
        let mut msg = label;
        push_str(&mut msg, ": バルーン名が空です。");
        let ghost old_errs = views(errs@);
        errs.push(msg);
        assert(views(errs@) =~= old_errs + seq![msg@]);
        return;
    }
    let c = match comma {
        Some(c) => c,
        None => {
            assert(parts.len() == 1);
            let mut msg = label;
            push_str(&mut msg, " [");
            let nm = string_of(v, na, nb);
            push_str(&mut msg, nm.as_str());
            push_str(&mut msg, "]: レイヤー指定がありません。書式: balloonNAME,file.png:color_type,...");
            let ghost old_errs = views(errs@);
            errs.push(msg);
            assert(views(errs@) =~= old_errs + seq![msg@]);
            return;
        },
    };
    let nm = string_of(v, na, nb);
    let mut head = label;
    push_str(&mut head, " [");
    push_str(&mut head, nm.as_str());
    push_str(&mut head, "]: ");
    let ghost toks = parts.skip(1);
    proof {
        assert(line.skip(c - s + 1) =~= v@.subrange(c + 1, e as int));
        assert(toks =~= split_by(v@.subrange(c + 1, e as int), ','));
        assert(parts.len() >= 2);
    }
    let mut layers: LayerList = Vec::new();
    let mut has_error = false;
    let ghost errs0 = views(errs@);
    let ghost mut done: Seq<Seq<char>> = Seq::empty();
    let mut p = c + 1;
    loop
        invariant_except_break
            toks == done + split_by(v@.subrange(p as int, e as int), ','),
        invariant
            c + 1 <= p <= e <= v.len(),
            ({
                let (ls, he, es) = tokens_result(done, head@, views(present@));
                &&& layers_view(layers@) == ls
                &&& has_error == he
                &&& views(errs@) == errs0 + es
            }),
        ensures
            toks == done,
        decreases e - p,
    {
        let ghost rest = v@.subrange(p as int, e as int);
        proof {
            lemma_find_char(rest, ',');
        }
        let ghost tr0 = tokens_result(done, head@, views(present@));
        match find_char_in(v, p, e, ',') {
            None => {
                apply_token(v, p, e, &head, present, &mut layers, &mut has_error, errs);
                proof {
                    assert(split_by(rest, ',') == seq![rest]);
                    assert(done.push(rest).drop_last() =~= done);
                    lemma_token_step_prefix(tr0.0, tr0.1, errs0, tr0.2, rest, head@, views(present@));
                }
                proof {
                    done = done.push(rest);
                    assert(toks =~= done);
                }
                break;
            },
            Some(q) => {
                apply_token(v, p, q, &head, present, &mut layers, &mut has_error, errs);
                let ghost tok = v@.subrange(p as int, q as int);
                proof {
                    assert(rest.take(q - p) =~= tok);
                    assert(rest.skip(q - p + 1) =~= v@.subrange(q + 1, e as int));
                    assert(done.push(tok).drop_last() =~= done);
                    lemma_token_step_prefix(tr0.0, tr0.1, errs0, tr0.2, tok, head@, views(present@));
                }
                proof {
                    assert(toks =~= done.push(tok) + split_by(v@.subrange(q + 1, e as int), ','));
                    done = done.push(tok);
                }
                p = q + 1;
            },
        }
    }
    assert(head@ == "行"@ + int_numeral(n as int) + " ["@ + name + "]: "@);
    if !has_error || layers.len() > 0 {
        layout.insert(nm, layers);
    }
}

/// `token_step` only appends to the error list it is given.
proof fn lemma_token_step_prefix(
    ls: Seq<(Seq<char>, ColorType)>,
    he: bool,
    pre: Seq<Seq<char>>,
    es: Seq<Seq<char>>,
    tok: Seq<char>,
    head: Seq<char>,
    present: Seq<Seq<char>>,
)
    ensures
        ({
            let a = token_step((ls, he, pre + es), tok, head, present);
            let b = token_step((ls, he, es), tok, head, present);
            a.0 == b.0 && a.1 == b.1 && a.2 == pre + b.2
        }),
{
    let b = token_step((ls, he, es), tok, head, present);
    if b.2.len() > es.len() {
        assert((pre + es).push(b.2.last()) =~= pre + es.push(b.2.last()));
    }
}

/// The lines `"  • {e}"` joined with line feeds, appended to `out`.
fn push_bullets(out: &mut String, errs: &Vec<String>)
    ensures
        final(out)@ == old(out)@ + join(bullets(views(errs@)), "\n"@),
{
    let ghost es = views(errs@);
    let ghost o0 = out@;
    let mut i: usize = 0;
    while i < errs.len()
        invariant
            i <= errs.len(),
            es == views(errs@),
            out@ == o0 + join(bullets(es.take(i as int)), "\n"@),
        decreases errs.len() - i,
    {
        let ghost prev = join(bullets(es.take(i as int)), "\n"@);
        if i > 0 {
            push_str(out, "\n");
        }
        push_str(out, "  • ");
        push_str(out, errs[i].as_str());
        proof {
            let bl = bullets(es.take(i + 1));
            assert(bl.drop_last() =~= bullets(es.take(i as int)));
            assert(bl.last() == "  • "@ + es[i as int]);
            if i == 0 {
                assert(bl.len() == 1);
                assert(prev.len() == 0);
                assert(out@ =~= o0 + bl[0]);
            } else {
                assert(out@ =~= o0 + prev + "\n"@ + bl.last());
            }
        }
        i = i + 1;
    }
    assert(es.take(errs.len() as int) =~= es);
}

/// Reads `slbe_files.txt`: each line `balloonNAME,file.png:color_type,...`
/// names a balloon and its layers, back to front. Blank lines and `//`
/// comments are skipped; a later line for the same balloon replaces the
/// earlier one. `present` lists the file names found in the balloon folder:
/// a layer whose file is not among them is an error. A line whose layers all
/// fail defines nothing; one with at least one good layer keeps those.
/// Any error makes the whole text fail, with every error listed.
pub fn parse_balloon_layout(text: &str, present: &Vec<String>) -> (r: Result<Layout, String>)
    ensures
        ({
            let (m, es) = layout_lines(split_lines(text@), views(present@));
            match r {
                Ok(l) => es.len() == 0 && l.wf() && l@ == m,
                Err(e) => es.len() > 0 && e@ == layout_error_message(es),
            }
        }),
{
    let v = chars_of(text);
    let mut layout = Layout::new();
    let mut errs: Vec<String> = Vec::new();
    let mut pos: usize = 0;
    let mut lineno: usize = 0;
    let ghost mut done: Seq<Seq<char>> = Seq::empty();
    assert(v@.subrange(0, v.len() as int) =~= v@);
    assert(views(errs@) =~= Seq::<Seq<char>>::empty());
    while pos < v.len()
        invariant
            pos <= v.len(),
            v@ == text@,
            lineno == done.len() <= pos,
            layout.wf(),
            split_lines(v@) == done + split_lines(v@.subrange(pos as int, v.len() as int)),
            layout@ == layout_lines(done, views(present@)).0,
            views(errs@) == layout_lines(done, views(present@)).1,
        decreases v.len() - pos,
    {
        let (ls, le, next) = next_line(&v, pos);
        let ghost line = v@.subrange(ls as int, le as int);
        proof {
            assert(done + split_lines(v@.subrange(pos as int, v.len() as int)) =~= done.push(line)
                + split_lines(v@.subrange(next as int, v.len() as int)));
            assert(done.push(line).drop_last() =~= done);
        }
        lineno = lineno + 1;
        read_layout_line(&v, ls, le, lineno, present, &mut layout, &mut errs);
        proof {
            done = done.push(line);
        }
        pos = next;
    }
    assert(v@.subrange(v.len() as int, v.len() as int).len() == 0);
    assert(done + Seq::<Seq<char>>::empty() =~= done);
    if errs.len() == 0 {
        Ok(layout)
    } else {
        let mut msg = String::new();
        push_str(&mut msg, "slbe_files.txt にエラーがあります:\n\n");
        push_bullets(&mut msg, &errs);
        Err(msg)
    }
}

/// Without any balloon layout (no `slbe_files.txt`, or an empty one) the
/// balloon images are used as they are, without composing or recolouring.
pub fn is_direct_image_mode(layout: &Layout) -> (b: bool)
    requires
        layout.wf(),
    ensures
        b == (layout@.len() == 0),
{
    layout.is_empty()
}

} // verus!
