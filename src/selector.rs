use vstd::prelude::*;

use crate::crates::Crate;

verus! {

/// The position that `index` moves to when shifted by `shift` over a
/// list of `len` entries, wrapping around at both ends.
pub open spec fn wrapped(index: int, shift: int, len: int) -> int {
    (index + shift) % len
}

/// A list with one selected entry.
pub struct ScrollSelector<T> {
    pub selected_index: usize,
    pub data: Vec<T>,
}

impl<T> ScrollSelector<T> {
    /// Moves the selection by `shift` entries, wrapping around; on an empty
    /// list the selection goes back to the start.
    pub fn shift(&mut self, shift: isize)
        ensures
            final(self).data@ == old(self).data@,
            old(self).data@.len() == 0 ==> final(self).selected_index == 0,
            old(self).data@.len() > 0 ==> final(self).selected_index as int == wrapped(
                old(self).selected_index as int,
                shift as int,
                old(self).data@.len() as int,
            ),
    {
        if !self.has_data() {
            self.selected_index = 0;
            return;
        }
        let l = self.data.len();
        let i = self.selected_index % l;
        let ghost li = l as int;
        let ghost x = self.selected_index as int;
        proof {
            vstd::arithmetic::div_mod::lemma_small_mod(i as nat, l as nat);
        }
        if shift >= 0 {
            let s = (shift as usize) % l;
            let r = if s >= l - i {
                s - (l - i)
            } else {
                i + s
            };
            proof {
                vstd::arithmetic::div_mod::lemma_add_mod_noop(x, shift as int, li);
                vstd::arithmetic::div_mod::lemma_small_mod(s as nat, l as nat);
                if s >= l - i {
                    vstd::arithmetic::div_mod::lemma_mod_add_multiples_vanish(r as int, li);
                    vstd::arithmetic::div_mod::lemma_small_mod(r as nat, l as nat);
                } else {
                    vstd::arithmetic::div_mod::lemma_small_mod(r as nat, l as nat);
                }
            }
            self.selected_index = r;
        } else {
            let m = ((-(shift + 1)) as usize) % l;
            let s = if m + 1 == l {
                0
            } else {
                m + 1
            };
            let ghost a = -(shift as int);
            proof {
                vstd::arithmetic::div_mod::lemma_add_mod_noop_right(1, a - 1, li);
                vstd::arithmetic::div_mod::lemma_small_mod(m as nat, l as nat);
                if m + 1 == l {
                    vstd::arithmetic::div_mod::lemma_mod_add_multiples_vanish(0, li);
                    vstd::arithmetic::div_mod::lemma_small_mod(0, l as nat);
                } else {
                    vstd::arithmetic::div_mod::lemma_small_mod((m + 1) as nat, l as nat);
                }
                assert(s as int == a % li);
                vstd::arithmetic::div_mod::lemma_sub_mod_noop(x, a, li);
                vstd::arithmetic::div_mod::lemma_small_mod(s as nat, l as nat);
            }
            let r = if i >= s {
                i - s
            } else {
                i + (l - s)
            };
            proof {
                if i >= s {
                    vstd::arithmetic::div_mod::lemma_small_mod(r as nat, l as nat);
                } else {
                    vstd::arithmetic::div_mod::lemma_mod_add_multiples_vanish(i as int - s as int, li);
                    vstd::arithmetic::div_mod::lemma_small_mod(r as nat, l as nat);
                }
            }
            self.selected_index = r;
        }
    }

    /// The selected entry, if the selection lies within the list.
    pub fn get_selected(&self) -> (r: Option<&T>)
        ensures
            self.selected_index < self.data@.len() ==> r == Some(&self.data@[self.selected_index as int]),
            self.selected_index >= self.data@.len() ==> r is None,
    {
        if self.selected_index < self.data.len() {
            Some(&self.data[self.selected_index])
        } else {
            None
        }
    }

    pub fn has_data(&self) -> (r: bool)
        ensures
            r == (self.data@.len() > 0),
    {
        self.data.len() > 0
    }
}

/// How one letter of a name is shown in a list.
#[derive(Debug, Clone, Copy, PartialEq, Eq, Structural)]
pub enum LetterStyle {
    Plain,
    Red,
    DarkRed,
    LightGray,
}

/// The style of a letter: search hits are red, and the names of
/// dependencies without features are dimmed (dark red for hits, light
/// gray otherwise).
pub fn letter_style(has_features: bool, highlighted: bool) -> (r: LetterStyle)
    ensures
        r == (if has_features {
            if highlighted {
                LetterStyle::Red
            } else {
                LetterStyle::Plain
            }
        } else if highlighted {
            LetterStyle::DarkRed
        } else {
            LetterStyle::LightGray
        }),
{
    match (has_features, highlighted) {
        (true, true) => LetterStyle::Red,
        (true, false) => LetterStyle::Plain,
        (false, true) => LetterStyle::DarkRed,
        (false, false) => LetterStyle::LightGray,
    }
}

/// Relies on `char::to_string`: the string of that one character.
#[verifier::external_body]
fn char_text(c: char) -> (r: String)
    ensures
        r@ == seq![c],
{
    c.to_string()
}

/// Relies on `console::style(..).red()`: the character in red. Whether
/// escape codes are written depends on the terminal, so nothing is
/// promised of the text.
#[verifier::external_body]
fn paint_red(c: char) -> String {
    console::style(c).red().to_string()
}

/// Relies on `console::style(..).color256(..)`: the character in a colour
/// of the 256-colour palette; as for `paint_red`, the text depends on the
/// terminal.
#[verifier::external_body]
fn paint_256(c: char, color: u8) -> String {
    console::style(c).color256(color).to_string()
}

fn paint(c: char, s: LetterStyle) -> (r: String)
    ensures
        s == LetterStyle::Plain ==> r@ == seq![c],
{
    match s {
        LetterStyle::Plain => char_text(c),
        LetterStyle::Red => paint_red(c),
        LetterStyle::DarkRed => paint_256(c, 1),
        LetterStyle::LightGray => paint_256(c, 7),
    }
}

/// Whether `v` holds `x`.
fn has_index(v: &Vec<usize>, x: usize) -> (r: bool)
    ensures
        r == v@.contains(x),
{
    let mut k: usize = 0;
    while k < v.len()
        invariant
            k <= v@.len(),
            forall|m: int| 0 <= m < k ==> v@[m] != x,
        decreases v.len() - k,
    {
        if v[k] == x {
            return true;
        }
        k = k + 1;
    }
    false
}

/// No position in `highlighted` falls on one of the first `len` letters.
pub open spec fn no_hit_within(highlighted: Seq<usize>, len: nat) -> bool {
    forall|i: int| 0 <= i < highlighted.len() ==> #[trigger] highlighted[i] >= len
}

/// Renders `name` letter by letter; letters at `highlighted` positions are
/// search hits.
fn render(name: &String, has_features: bool, highlighted: &Vec<usize>) -> (r: String)
    ensures
        has_features && no_hit_within(highlighted@, name@.len()) ==> r@ == name@,
{
    let t = name.as_str();
    let n = t.unicode_len();
    let mut out = String::new();
    let mut k: usize = 0;
    while k < n
        invariant
            n == name@.len(),
            t@ == name@,
            k <= n,
            has_features && no_hit_within(highlighted@, name@.len()) ==> out@ == name@.take(k as int),
        decreases n - k,
    {
        let c = t.get_char(k);
        let style = letter_style(has_features, has_index(highlighted, k));
        let piece = paint(c, style);
        out.append(piece.as_str());
        proof {
            if has_features && no_hit_within(highlighted@, name@.len()) {
                if highlighted@.contains(k) {
                    let i = choose|i: int| 0 <= i < highlighted@.len() && highlighted@[i] == k;
                    assert(highlighted@[i] >= name@.len());
                }
                assert(name@.take(k + 1) =~= name@.take(k as int) + seq![c]);
            }
        }
        k = k + 1;
    }
    proof {
        assert(name@.take(n as int) =~= name@);
    }
    out
}

/// A dependency as shown in the list of dependencies.
pub struct DependencySelectorItem {
    pub name: String,
    pub display_name: String,
}

impl DependencySelectorItem {
    pub fn new(dep: &Crate, highlighted_letters: Vec<usize>) -> (r: Self)
        ensures
            r.name@ == dep.name@,
            dep.names@.len() > 0 && no_hit_within(highlighted_letters@, dep.name@.len())
                ==> r.display_name@ == dep.name@,
    {
        let name = dep.get_name();
        let display_name = render(&name, dep.has_features(), &highlighted_letters);
        Self { name, display_name }
    }

    pub fn name(&self) -> (r: &str)
        ensures
            r@ == self.name@,
    {
        self.name.as_str()
    }

    pub fn display_name(&self) -> (r: &str)
        ensures
            r@ == self.display_name@,
    {
        self.display_name.as_str()
    }
}

/// A feature as shown in the list of a dependency's features.
pub struct FeatureSelectorItem {
    pub name: String,
    pub display_name: String,
}

impl FeatureSelectorItem {
    pub fn new(name: &String, highlighted_letters: Vec<usize>) -> (r: Self)
        ensures
            r.name@ == name@,
            no_hit_within(highlighted_letters@, name@.len()) ==> r.display_name@ == name@,
    {
        let display_name = render(name, true, &highlighted_letters);
        Self { name: name.clone(), display_name }
    }

    pub fn name(&self) -> (r: &str)
        ensures
            r@ == self.name@,
    {
        self.name.as_str()
    }

    pub fn display_name(&self) -> (r: &str)
        ensures
            r@ == self.display_name@,
    {
        self.display_name.as_str()
    }
}

/// First visible row of a list of `len` rows on a screen of `height` rows,
/// with the selection kept near the middle; `offset` rows are reserved
/// below the list.
pub open spec fn window_start(selected: int, len: int, height: int, offset: int) -> int {
    let a = selected - height / 2 + 1;
    let b = len - height + 1 + offset;
    let m = if a < b { a } else { b };
    if m < 0 { 0 } else { m }
}

/// The rows of a list to draw: from `window_start` up to, not including,
/// the returned end.
pub fn visible_range(selected: usize, len: usize, height: usize, offset: usize) -> (r: (usize, usize))
    requires
        height > offset,
    ensures
        r.0 as int == window_start(selected as int, len as int, height as int, offset as int),
        r.1 as int == if (len as int) < r.0 + height - 1 - offset {
            len as int
        } else {
            r.0 + height - 1 - offset
        },
{
    let a: i128 = selected as i128 - (height / 2) as i128 + 1;
    let b: i128 = len as i128 - height as i128 + 1 + offset as i128;
    let m: i128 = if a < b { a } else { b };
    let start: i128 = if m < 0 { 0 } else { m };
    assert(start <= selected as i128 + 1);
    let end_candidate: i128 = start + height as i128 - 1 - offset as i128;
    let end: i128 = if (len as i128) < end_candidate { len as i128 } else { end_candidate };
    assert(0 <= start <= usize::MAX);
    assert(0 <= end <= usize::MAX) by {
        assert(end <= len as i128);
    }
    (start as usize, end as usize)
}

} // verus!
