//! Colour settings of a project: the layer colours, part colours and the
//! per-balloon overrides, as saved with the project and as the editor
//! holds them; and the colour set a balloon is drawn with.
use vstd::prelude::*;
use vstd::hash_map::StringHashMap;
use crate::color::{ColorSet, Rgb, default_color_set};
use crate::descript::str_eq;

verus! {

/// Version of the saved profile format.
pub const PROFILE_VERSION: u32 = 2;

/// Per-balloon colour overrides, as saved (`[r, g, b]` triples).
pub struct IndividualColors {
    pub base: Option<[u8; 3]>,
    pub edge: Option<[u8; 3]>,
    pub text: Option<[u8; 3]>,
    /// Part colours: `all` for every part, or a part-name prefix; one
    /// entry per key.
    pub parts_colors: Vec<(String, [u8; 3])>,
}

/// The colour settings saved with a project. Each list holds one entry
/// per key.
pub struct ProjectProfile {
    pub version: u32,
    /// Layer colours by layer name: `base`, `edge`, `text`, `parts`.
    pub layer_colors: Vec<(String, [u8; 3])>,
    /// Part colours: `all` for every part, or a part-name prefix.
    pub parts_colors: Vec<(String, [u8; 3])>,
    /// Overrides by balloon settings file name.
    pub individual_colors: Vec<(String, IndividualColors)>,
    /// Draw balloon images without a colour overlay.
    pub no_balloon_color: bool,
    /// Apply colour edits to all balloons at once.
    pub bulk_color_mode: bool,
}

/// No key occurs twice among the entries.
pub open spec fn unique_keys<V>(es: Seq<(String, V)>) -> bool {
    forall|i: int, j: int| 0 <= i < j < es.len() ==> (#[trigger] es[i]).0@ != (#[trigger] es[j]).0@
}

impl ProjectProfile {
    /// Each list holds one entry per key, the overrides' part colours too.
    pub open spec fn wf(&self) -> bool {
        &&& unique_keys(self.layer_colors@)
        &&& unique_keys(self.parts_colors@)
        &&& unique_keys(self.individual_colors@)
        &&& forall|i: int|
            0 <= i < self.individual_colors@.len() ==> unique_keys(
                (#[trigger] self.individual_colors@[i]).1.parts_colors@,
            )
    }

    /// Whether the profile is well formed (see `wf`), as one read from a
    /// file may not be.
    pub fn check_wf(&self) -> (b: bool)
        ensures
            b == self.wf(),
    {
        if !keys_unique(&self.layer_colors) || !keys_unique(&self.parts_colors) || !keys_unique(
            &self.individual_colors,
        ) {
            return false;
        }
        let mut i: usize = 0;
        while i < self.individual_colors.len()
            invariant
                i <= self.individual_colors@.len(),
                forall|a: int| 0 <= a < i ==> unique_keys((#[trigger] self.individual_colors@[a]).1.parts_colors@),
            decreases self.individual_colors@.len() - i,
        {
            if !keys_unique(&self.individual_colors[i].1.parts_colors) {
                return false;
            }
            i = i + 1;
        }
        true
    }
}

/// Whether no key occurs twice among the entries (see `unique_keys`).
pub fn keys_unique<V>(es: &Vec<(String, V)>) -> (b: bool)
    ensures
        b == unique_keys(es@),
{
    let mut j: usize = 0;
    while j < es.len()
        invariant
            j <= es@.len(),
            forall|a: int, c: int| 0 <= a < c < j ==> (#[trigger] es@[a]).0@ != (#[trigger] es@[c]).0@,
        decreases es@.len() - j,
    {
        let mut i: usize = 0;
        while i < j
            invariant
                i <= j < es@.len(),
                forall|a: int| 0 <= a < i ==> (#[trigger] es@[a]).0@ != es@[j as int].0@,
            decreases j - i,
        {
            if str_eq(es[i].0.as_str(), es[j].0.as_str()) {
                return false;
            }
            i = i + 1;
        }
        j = j + 1;
    }
    true
}

impl Default for ProjectProfile {
    /// The current version, no colours, overlay on, bulk mode on.
    fn default() -> (p: ProjectProfile)
        ensures
            p.wf(),
            p.version == PROFILE_VERSION,
            p.layer_colors@.len() == 0,
            p.parts_colors@.len() == 0,
            p.individual_colors@.len() == 0,
            !p.no_balloon_color,
            p.bulk_color_mode,
    {
        ProjectProfile {
            version: PROFILE_VERSION,
            layer_colors: Vec::new(),
            parts_colors: Vec::new(),
            individual_colors: Vec::new(),
            no_balloon_color: false,
            bulk_color_mode: true,
        }
    }
}

/// The colour of an `[r, g, b]` triple.
pub open spec fn triple_rgb(c: [u8; 3]) -> Rgb {
    Rgb(c@[0], c@[1], c@[2])
}

/// The colour listed for `key`: the first entry with that key, if any.
pub open spec fn listed_color(es: Seq<(String, [u8; 3])>, key: Seq<char>) -> Option<[u8; 3]>
    decreases es.len(),
{
    if es.len() == 0 {
        None
    } else if es[0].0@ == key {
        Some(es[0].1)
    } else {
        listed_color(es.drop_first(), key)
    }
}

impl ProjectProfile {
    /// The colour of a layer, or `default` where the profile has none.
    pub fn layer_color(&self, key: &str, default: Rgb) -> (c: Rgb)
        ensures
            c == (match listed_color(self.layer_colors@, key@) {
                Some(t) => triple_rgb(t),
                None => default,
            }),
    {
        let ghost es = self.layer_colors@;
        let mut i: usize = 0;
        assert(es.skip(0) =~= es);
        while i < self.layer_colors.len()
            invariant
                i <= self.layer_colors@.len(),
                es == self.layer_colors@,
                listed_color(es, key@) == listed_color(es.skip(i as int), key@),
            decreases self.layer_colors@.len() - i,
        {
            assert(es.skip(i as int)[0] == es[i as int]);
            assert(es.skip(i as int).drop_first() =~= es.skip(i + 1));
            if str_eq(self.layer_colors[i].0.as_str(), key) {
                let t = self.layer_colors[i].1;
                return Rgb(t[0], t[1], t[2]);
            }
            i = i + 1;
        }
        assert(es.skip(i as int) =~= Seq::<(String, [u8; 3])>::empty());
        default
    }
}

/// The colour listed for `key`, as a colour (see `listed_color`).
pub open spec fn listed_rgb(es: Seq<(String, [u8; 3])>, key: Seq<char>) -> Option<Rgb> {
    opt_rgb(listed_color(es, key))
}

/// Two colour lists give every key the same colour, as maps from key to
/// colour compare.
pub open spec fn same_listing(a: Seq<(String, [u8; 3])>, b: Seq<(String, [u8; 3])>) -> bool {
    forall|k: Seq<char>| #[trigger] listed_rgb(a, k) == listed_rgb(b, k)
}

/// Whether restoring a snapshot needs the balloon images rebuilt: its layer
/// colours or its part colours differ from the present ones.
pub open spec fn rebuild_needed(
    layer_a: Seq<(String, [u8; 3])>,
    parts_a: Seq<(String, [u8; 3])>,
    layer_b: Seq<(String, [u8; 3])>,
    parts_b: Seq<(String, [u8; 3])>,
) -> bool {
    !same_listing(layer_a, layer_b) || !same_listing(parts_a, parts_b)
}

/// A key that no entry has is listed with no colour.
proof fn lemma_listed_absent(es: Seq<(String, [u8; 3])>, key: Seq<char>)
    requires
        forall|i: int| 0 <= i < es.len() ==> (#[trigger] es[i]).0@ != key,
    ensures
        listed_color(es, key) is None,
    decreases es.len(),
{
    if es.len() > 0 {
        assert(es[0].0@ != key);
        assert forall|i: int| 0 <= i < es.drop_first().len() implies (#[trigger] es.drop_first()[i]).0@ != key by {
            assert(es.drop_first()[i] == es[i + 1]);
        }
        lemma_listed_absent(es.drop_first(), key);
    }
}

/// The colour listed for `key` (see `listed_rgb`).
fn lookup_listed(es: &Vec<(String, [u8; 3])>, key: &str) -> (r: Option<Rgb>)
    ensures
        r == listed_rgb(es@, key@),
{
    let ghost s = es@;
    let mut i: usize = 0;
    assert(s.skip(0) =~= s);
    while i < es.len()
        invariant
            i <= es@.len(),
            s == es@,
            listed_color(s, key@) == listed_color(s.skip(i as int), key@),
        decreases es@.len() - i,
    {
        assert(s.skip(i as int)[0] == s[i as int]);
        assert(s.skip(i as int).drop_first() =~= s.skip(i + 1));
        if str_eq(es[i].0.as_str(), key) {
            let t = es[i].1;
            return Some(Rgb(t[0], t[1], t[2]));
        }
        i = i + 1;
    }
    assert(s.skip(i as int) =~= Seq::<(String, [u8; 3])>::empty());
    None
}

/// Every key of `a` is listed with the same colour in `a` and `b`.
fn keys_agree(a: &Vec<(String, [u8; 3])>, b: &Vec<(String, [u8; 3])>) -> (r: bool)
    ensures
        r == forall|i: int| 0 <= i < a@.len() ==> listed_rgb(a@, (#[trigger] a@[i]).0@) == listed_rgb(b@, a@[i].0@),
{
    let mut i: usize = 0;
    while i < a.len()
        invariant
            i <= a@.len(),
            forall|j: int| 0 <= j < i ==> listed_rgb(a@, (#[trigger] a@[j]).0@) == listed_rgb(b@, a@[j].0@),
        decreases a@.len() - i,
    {
        let x = lookup_listed(a, a[i].0.as_str());
        let y = lookup_listed(b, a[i].0.as_str());
        if x != y {
            return false;
        }
        i = i + 1;
    }
    true
}

/// Whether two colour lists give every key the same colour (see `same_listing`).
pub fn same_colors(a: &Vec<(String, [u8; 3])>, b: &Vec<(String, [u8; 3])>) -> (r: bool)
    ensures
        r == same_listing(a@, b@),
{
    let ab = keys_agree(a, b);
    let ba = keys_agree(b, a);
    proof {
        if ab && ba {
            assert forall|k: Seq<char>| #[trigger] listed_rgb(a@, k) == listed_rgb(b@, k) by {
                if exists|i: int| 0 <= i < a@.len() && (#[trigger] a@[i]).0@ == k {
                    let i = choose|i: int| 0 <= i < a@.len() && (#[trigger] a@[i]).0@ == k;
                    assert(listed_rgb(a@, a@[i].0@) == listed_rgb(b@, a@[i].0@));
                } else if exists|j: int| 0 <= j < b@.len() && (#[trigger] b@[j]).0@ == k {
                    let j = choose|j: int| 0 <= j < b@.len() && (#[trigger] b@[j]).0@ == k;
                    assert(listed_rgb(b@, b@[j].0@) == listed_rgb(a@, b@[j].0@));
                } else {
                    lemma_listed_absent(a@, k);
                    lemma_listed_absent(b@, k);
                }
            }
        } else if !ab {
            let i = choose|i: int| 0 <= i < a@.len() && listed_rgb(a@, (#[trigger] a@[i]).0@) != listed_rgb(b@, a@[i].0@);
            assert(listed_rgb(a@, a@[i].0@) != listed_rgb(b@, a@[i].0@));
        } else {
            let j = choose|j: int| 0 <= j < b@.len() && listed_rgb(b@, (#[trigger] b@[j]).0@) != listed_rgb(a@, b@[j].0@);
            assert(listed_rgb(a@, b@[j].0@) != listed_rgb(b@, b@[j].0@));
        }
    }
    ab && ba
}

/// Whether restoring a snapshot with the colours `layer_a`, `parts_a` over
/// the present `layer_b`, `parts_b` needs the balloon images rebuilt (see
/// `rebuild_needed`).
pub fn needs_rebuild(
    layer_a: &Vec<(String, [u8; 3])>,
    parts_a: &Vec<(String, [u8; 3])>,
    layer_b: &Vec<(String, [u8; 3])>,
    parts_b: &Vec<(String, [u8; 3])>,
) -> (r: bool)
    ensures
        r == rebuild_needed(layer_a@, parts_a@, layer_b@, parts_b@),
{
    !same_colors(layer_a, layer_b) || !same_colors(parts_a, parts_b)
}

/// Per-balloon colour overrides, as the editor holds them.
pub struct IndivColors {
    pub base: Option<Rgb>,
    pub edge: Option<Rgb>,
    pub text: Option<Rgb>,
    /// Part colours: `all` for every part, or a part-name prefix.
    pub parts_colors: StringHashMap<Rgb>,
}

impl Default for IndivColors {
    /// No overrides.
    fn default() -> (c: IndivColors)
        ensures
            c.base is None,
            c.edge is None,
            c.text is None,
            c.parts_colors@ == Map::<Seq<char>, Rgb>::empty(),
    {
        IndivColors { base: None, edge: None, text: None, parts_colors: StringHashMap::new() }
    }
}

/// An optional `[r, g, b]` triple as an optional colour.
pub open spec fn opt_rgb(o: Option<[u8; 3]>) -> Option<Rgb> {
    match o {
        Some(t) => Some(triple_rgb(t)),
        None => None,
    }
}

/// `[r, g, b]` entries as a map; a later entry for a key replaces an
/// earlier one.
pub open spec fn triples_map(es: Seq<(String, [u8; 3])>) -> Map<Seq<char>, Rgb>
    decreases es.len(),
{
    if es.len() == 0 {
        Map::empty()
    } else {
        triples_map(es.drop_last()).insert(es.last().0@, triple_rgb(es.last().1))
    }
}

/// `[r, g, b]` entries as colour entries, in order.
pub open spec fn rgb_entries(es: Seq<(String, [u8; 3])>) -> Seq<(Seq<char>, Rgb)> {
    es.map_values(|e: (String, [u8; 3])| (e.0@, triple_rgb(e.1)))
}

/// The layer colour `key` of a profile, or `d` where it has none.
pub open spec fn layer_or(es: Seq<(String, [u8; 3])>, key: Seq<char>, d: Rgb) -> Rgb {
    match listed_color(es, key) {
        Some(t) => triple_rgb(t),
        None => d,
    }
}

/// The four layer colours the editor works with: the profile's, each
/// defaulting to the colour of the default colour set.
pub open spec fn editor_layer_colors(es: Seq<(String, [u8; 3])>) -> Map<Seq<char>, Rgb> {
    let d = default_color_set();
    map![
        "base"@ => layer_or(es, "base"@, d.base),
        "edge"@ => layer_or(es, "edge"@, d.edge),
        "text"@ => layer_or(es, "text"@, d.text),
        "parts"@ => layer_or(es, "parts"@, d.parts),
    ]
}

/// The part colours the editor works with: the profile's, or, where it
/// has none, `all` in the layer colour of the parts.
pub open spec fn editor_parts_colors(p: ProjectProfile) -> Seq<(Seq<char>, Rgb)> {
    if p.parts_colors@.len() == 0 {
        seq![("all"@, layer_or(p.layer_colors@, "parts"@, default_color_set().parts))]
    } else {
        rgb_entries(p.parts_colors@)
    }
}

/// The last override entry for balloon `k`, if any.
pub open spec fn last_override(es: Seq<(String, IndividualColors)>, k: Seq<char>) -> Option<IndividualColors>
    decreases es.len(),
{
    if es.len() == 0 {
        None
    } else if es.last().0@ == k {
        Some(es.last().1)
    } else {
        last_override(es.drop_last(), k)
    }
}

/// `c` holds the overrides `ic` saves.
pub open spec fn holds_overrides(c: IndivColors, ic: IndividualColors) -> bool {
    &&& c.base == opt_rgb(ic.base)
    &&& c.edge == opt_rgb(ic.edge)
    &&& c.text == opt_rgb(ic.text)
    &&& c.parts_colors@ == triples_map(ic.parts_colors@)
}

/// The colour settings of a project as the editor works with them.
pub struct EditorColors {
    /// The colours of the four layers.
    pub layer_colors: StringHashMap<Rgb>,
    /// The shared part colours, `all` or a part-name prefix → colour.
    pub parts_colors: Vec<(String, Rgb)>,
    /// The overrides by balloon settings file name.
    pub individual_colors: StringHashMap<IndivColors>,
}

/// Entries as a map, a later one for a key replacing an earlier one.
fn triples_to_map(es: &Vec<(String, [u8; 3])>) -> (m: StringHashMap<Rgb>)
    ensures
        m@ == triples_map(es@),
{
    let mut m: StringHashMap<Rgb> = StringHashMap::new();
    let mut i: usize = 0;
    assert(es@.take(0) =~= Seq::<(String, [u8; 3])>::empty());
    assert(m@ =~= triples_map(es@.take(0)));
    while i < es.len()
        invariant
            i <= es@.len(),
            m@ == triples_map(es@.take(i as int)),
        decreases es@.len() - i,
    {
        let t = es[i].1;
        assert(es@.take(i + 1).drop_last() =~= es@.take(i as int));
        assert(es@.take(i + 1).last() == es@[i as int]);
        m.insert(es[i].0.clone(), Rgb(t[0], t[1], t[2]));
        i = i + 1;
    }
    assert(es@.take(es@.len() as int) =~= es@);
    m
}

/// An optional triple as an optional colour.
fn opt_color(o: Option<[u8; 3]>) -> (r: Option<Rgb>)
    ensures
        r == opt_rgb(o),
{
    match o {
        Some(t) => Some(Rgb(t[0], t[1], t[2])),
        None => None,
    }
}

/// The colour settings the editor works with, taken from a saved profile:
/// the four layer colours (each defaulting as `ColorSet::default` has it),
/// the part colours (defaulting to `all` in the parts' layer colour) and
/// the per-balloon overrides (a later entry for a balloon replacing an
/// earlier one).
pub fn editor_colors(p: &ProjectProfile) -> (r: EditorColors)
    ensures
        r.layer_colors@ == editor_layer_colors(p.layer_colors@),
        r.parts_colors@.map_values(|e: (String, Rgb)| (e.0@, e.1)) == editor_parts_colors(*p),
        forall|k: Seq<char>|
            #![trigger r.individual_colors@.contains_key(k)]
            r.individual_colors@.contains_key(k) <==> last_override(p.individual_colors@, k) is Some,
        forall|k: Seq<char>|
            r.individual_colors@.contains_key(k) ==> holds_overrides(
                #[trigger] r.individual_colors@[k],
                last_override(p.individual_colors@, k)->0,
            ),
{
    let d = ColorSet::default();
    let mut layer_colors: StringHashMap<Rgb> = StringHashMap::new();
    layer_colors.insert(String::from_str("base"), p.layer_color("base", d.base));
    layer_colors.insert(String::from_str("edge"), p.layer_color("edge", d.edge));
    layer_colors.insert(String::from_str("text"), p.layer_color("text", d.text));
    let parts = p.layer_color("parts", d.parts);
    layer_colors.insert(String::from_str("parts"), parts);
    proof {
        reveal_strlit("base");
        reveal_strlit("edge");
        reveal_strlit("text");
        reveal_strlit("parts");
    }
    assert(layer_colors@ =~= editor_layer_colors(p.layer_colors@));
    let mut parts_colors: Vec<(String, Rgb)> = Vec::new();
    if p.parts_colors.len() == 0 {
        parts_colors.push((String::from_str("all"), parts));
        assert(parts_colors@.map_values(|e: (String, Rgb)| (e.0@, e.1)) =~= editor_parts_colors(*p));
    } else {
        let mut i: usize = 0;
        while i < p.parts_colors.len()
            invariant
                i <= p.parts_colors@.len(),
                parts_colors@.map_values(|e: (String, Rgb)| (e.0@, e.1)) == rgb_entries(
                    p.parts_colors@.take(i as int),
                ),
            decreases p.parts_colors@.len() - i,
        {
            let t = p.parts_colors[i].1;
            let ghost before = parts_colors@;
            let entry = (p.parts_colors[i].0.clone(), Rgb(t[0], t[1], t[2]));
            parts_colors.push(entry);
            assert(parts_colors@ == before.push(entry));
            assert(parts_colors@.map_values(|e: (String, Rgb)| (e.0@, e.1)) =~= before.map_values(
                |e: (String, Rgb)| (e.0@, e.1),
            ).push((entry.0@, entry.1)));
            assert(p.parts_colors@.take(i + 1) =~= p.parts_colors@.take(i as int).push(p.parts_colors@[i as int]));
            assert(parts_colors@.map_values(|e: (String, Rgb)| (e.0@, e.1)) =~= rgb_entries(
                p.parts_colors@.take(i + 1),
            ));
            i = i + 1;
        }
        assert(p.parts_colors@.take(p.parts_colors@.len() as int) =~= p.parts_colors@);
    }
    let ghost es = p.individual_colors@;
    let mut individual_colors: StringHashMap<IndivColors> = StringHashMap::new();
    let mut i: usize = 0;
    assert(es.take(0) =~= Seq::<(String, IndividualColors)>::empty());
    while i < p.individual_colors.len()
        invariant
            i <= es.len(),
            es == p.individual_colors@,
            forall|k: Seq<char>|
                #![trigger individual_colors@.contains_key(k)]
                individual_colors@.contains_key(k) <==> last_override(es.take(i as int), k) is Some,
            forall|k: Seq<char>|
                individual_colors@.contains_key(k) ==> holds_overrides(
                    #[trigger] individual_colors@[k],
                    last_override(es.take(i as int), k)->0,
                ),
        decreases es.len() - i,
    {
        let ic = &p.individual_colors[i].1;
        let c = IndivColors {
            base: opt_color(ic.base),
            edge: opt_color(ic.edge),
            text: opt_color(ic.text),
            parts_colors: triples_to_map(&ic.parts_colors),
        };
        let ghost key = es[i as int].0@;
        individual_colors.insert(p.individual_colors[i].0.clone(), c);
        proof {
            assert(es.take(i + 1).drop_last() =~= es.take(i as int));
            assert(es.take(i + 1).last() == es[i as int]);
            assert forall|k: Seq<char>|
                individual_colors@.contains_key(k) <==> last_override(es.take(i + 1), k) is Some by {
                if k != key {
                    assert(last_override(es.take(i + 1), k) == last_override(es.take(i as int), k));
                }
            }
            assert forall|k: Seq<char>|
                individual_colors@.contains_key(k) implies holds_overrides(
                    #[trigger] individual_colors@[k],
                    last_override(es.take(i + 1), k)->0,
                ) by {
                if k != key {
                    assert(last_override(es.take(i + 1), k) == last_override(es.take(i as int), k));
                }
            }
        }
        i = i + 1;
    }
    assert(es.take(es.len() as int) =~= es);
    EditorColors { layer_colors, parts_colors, individual_colors }
}

/// The editable state an undo step restores.
pub struct Snapshot {
    pub layer_colors: StringHashMap<Rgb>,
    pub parts_colors: StringHashMap<Rgb>,
    pub individual_colors: StringHashMap<IndivColors>,
    pub descript_text: String,
    pub install_text: String,
    pub individual_texts: StringHashMap<String>,
    pub basic_info: StringHashMap<String>,
    /// The text of `slbe_files.txt`.
    pub slbe_files_text: String,
}

/// `c` where present, else `d`.
pub open spec fn or_color(m: Map<Seq<char>, Rgb>, key: Seq<char>, d: Rgb) -> Rgb {
    if m.contains_key(key) {
        m[key]
    } else {
        d
    }
}

/// `o`'s colour where set, else `d`.
pub open spec fn or_some(o: Option<Rgb>, d: Rgb) -> Rgb {
    match o {
        Some(c) => c,
        None => d,
    }
}

/// The colour set of a balloon: the default colours, replaced by the layer
/// colours that are set, then by the balloon's own overrides (its part
/// colour is its `all` part colour); the overlay is off when switched off
/// or when images are used as they are.
pub open spec fn balloon_color_set(
    layer_colors: Map<Seq<char>, Rgb>,
    individual: Map<Seq<char>, IndivColors>,
    no_balloon_color: bool,
    direct_image_mode: bool,
    name: Option<Seq<char>>,
) -> ColorSet {
    let d = default_color_set();
    let base = or_color(layer_colors, "base"@, d.base);
    let edge = or_color(layer_colors, "edge"@, d.edge);
    let text = or_color(layer_colors, "text"@, d.text);
    let parts = or_color(layer_colors, "parts"@, d.parts);
    let no_color = no_balloon_color || direct_image_mode;
    match name {
        Some(n) if individual.contains_key(n) => {
            let ic = individual[n];
            ColorSet {
                base: or_some(ic.base, base),
                edge: or_some(ic.edge, edge),
                text: or_some(ic.text, text),
                parts: or_color(ic.parts_colors@, "all"@, parts),
                no_color,
            }
        },
        _ => ColorSet { base, edge, text, parts, no_color },
    }
}

/// The colour of `key` in `m`, or `d`.
fn get_or(m: &StringHashMap<Rgb>, key: &str, d: Rgb) -> (c: Rgb)
    ensures
        c == or_color(m@, key@, d),
{
    match m.get(key) {
        Some(c) => *c,
        None => d,
    }
}

/// The colour set a balloon is drawn with (see `balloon_color_set`).
pub fn color_set_for(
    layer_colors: &StringHashMap<Rgb>,
    individual_colors: &StringHashMap<IndivColors>,
    no_balloon_color: bool,
    direct_image_mode: bool,
    balloon_name: Option<&str>,
) -> (cs: ColorSet)
    ensures
        cs == balloon_color_set(
            layer_colors@,
            individual_colors@,
            no_balloon_color,
            direct_image_mode,
            match balloon_name {
                Some(n) => Some(n@),
                None => None,
            },
        ),
{
    let d = ColorSet::default();
    let base = get_or(layer_colors, "base", d.base);
    let edge = get_or(layer_colors, "edge", d.edge);
    let text = get_or(layer_colors, "text", d.text);
    let parts = get_or(layer_colors, "parts", d.parts);
    let no_color = no_balloon_color || direct_image_mode;
    if let Some(name) = balloon_name {
        if let Some(ic) = individual_colors.get(name) {
            return ColorSet {
                base: match ic.base {
                    Some(c) => c,
                    None => base,
                },
                edge: match ic.edge {
                    Some(c) => c,
                    None => edge,
                },
                text: match ic.text {
                    Some(c) => c,
                    None => text,
                },
                parts: get_or(&ic.parts_colors, "all", parts),
                no_color,
            };
        }
    }
    ColorSet { base, edge, text, parts, no_color }
}

/// The part colours a balloon is drawn with: its own, where it has any,
/// else the shared ones.
pub fn parts_colors_for<'a>(
    parts_colors: &'a StringHashMap<Rgb>,
    individual_colors: &'a StringHashMap<IndivColors>,
    balloon_name: Option<&str>,
) -> (r: &'a StringHashMap<Rgb>)
    ensures
        r@ == (match balloon_name {
            Some(n) if individual_colors@.contains_key(n@)
                && !individual_colors@[n@].parts_colors@.is_empty() => individual_colors@[n@].parts_colors@,
            _ => parts_colors@,
        }),
{
    if let Some(name) = balloon_name {
        if let Some(ic) = individual_colors.get(name) {
            if !ic.parts_colors.is_empty() {
                return &ic.parts_colors;
            }
        }
    }
    parts_colors
}

} // verus!
