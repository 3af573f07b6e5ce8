//! Colored character runs: an ordered sequence of components, each a run of
//! characters, a single character, or a color marker. A marker is stateful:
//! it colors every following character until the next marker. Iteration
//! yields `(character, current color or none)` pairs in sequence order.

use vstd::prelude::*;
use vstd::string::{StrSliceExecFns, StringExecFns};

use crate::color::Color;

verus! {

/// One component of a [`ColoredStr`].
#[derive(Debug, Clone)]
pub enum Component {
    /// A run of characters.
    Str(String),
    /// A single character.
    Char(char),
    /// A color marker: colors every following character until superseded.
    Color(Color),
}

impl From<char> for Component {
    /// A character becomes a single-character component.
    fn from(value: char) -> (r: Self) {
        Component::Char(value)
    }
}

impl vstd::std_specs::convert::FromSpecImpl<char> for Component {
    open spec fn obeys_from_spec() -> bool {
        true
    }

    open spec fn from_spec(value: char) -> Self {
        Component::Char(value)
    }
}

impl From<Color> for Component {
    /// A color becomes a marker component.
    fn from(value: Color) -> (r: Self) {
        Component::Color(value)
    }
}

impl vstd::std_specs::convert::FromSpecImpl<Color> for Component {
    open spec fn obeys_from_spec() -> bool {
        true
    }

    open spec fn from_spec(value: Color) -> Self {
        Component::Color(value)
    }
}

impl From<&str> for Component {
    /// A string slice becomes a run-of-characters component.
    fn from(value: &str) -> (r: Self) {
        Component::Str(String::from_str(value))
    }
}

impl vstd::std_specs::convert::FromSpecImpl<&str> for Component {
    open spec fn obeys_from_spec() -> bool {
        false
    }

    open spec fn from_spec(value: &str) -> Self {
        arbitrary()
    }
}

/// The color in force after the components, starting from `cur`: the last
/// marker wins.
pub open spec fn color_after(cs: Seq<Component>, cur: Option<Color>) -> Option<Color>
    decreases cs.len(),
{
    if cs.len() == 0 {
        cur
    } else {
        color_after(
            cs.drop_first(),
            match cs[0] {
                Component::Color(col) => Some(col),
                _ => cur,
            },
        )
    }
}

/// The `(character, color)` pairs the components yield, starting with the
/// color `cur` in force: characters of a run or standing alone carry the
/// color of the last marker before them.
pub open spec fn pairs_from(cs: Seq<Component>, cur: Option<Color>) -> Seq<(char, Option<Color>)>
    decreases cs.len(),
{
    if cs.len() == 0 {
        Seq::empty()
    } else {
        match cs[0] {
            Component::Str(s) => s@.map_values(|c: char| (c, cur)) + pairs_from(
                cs.drop_first(),
                cur,
            ),
            Component::Char(c) => seq![(c, cur)] + pairs_from(cs.drop_first(), cur),
            Component::Color(col) => pairs_from(cs.drop_first(), Some(col)),
        }
    }
}

/// The `(character, color)` pairs of a whole colored string: no color is in
/// force before the first marker.
pub open spec fn pairs_of(cs: Seq<Component>) -> Seq<(char, Option<Color>)> {
    pairs_from(cs, None)
}

/// Splitting a component sequence splits its pairs: the second part starts
/// with the color in force after the first.
pub proof fn lemma_pairs_from_concat(a: Seq<Component>, b: Seq<Component>, cur: Option<Color>)
    ensures
        pairs_from(a + b, cur) == pairs_from(a, cur) + pairs_from(b, color_after(a, cur)),
        color_after(a + b, cur) == color_after(b, color_after(a, cur)),
    decreases a.len(),
{
    if a.len() == 0 {
        assert(a + b =~= b);
        assert(pairs_from(a, cur) + pairs_from(b, cur) =~= pairs_from(b, cur));
    } else {
        assert((a + b).drop_first() =~= a.drop_first() + b);
        let cur2 = match a[0] {
            Component::Color(col) => Some(col),
            _ => cur,
        };
        lemma_pairs_from_concat(a.drop_first(), b, cur2);
        match a[0] {
            Component::Str(s) => {
                assert(pairs_from(a + b, cur) =~= pairs_from(a, cur) + pairs_from(
                    b,
                    color_after(a, cur),
                ));
            },
            Component::Char(c) => {
                assert(pairs_from(a + b, cur) =~= pairs_from(a, cur) + pairs_from(
                    b,
                    color_after(a, cur),
                ));
            },
            Component::Color(col) => {},
        }
    }
}

/// An ordered sequence of components making up a colored character run.
#[derive(Debug, Clone)]
pub struct ColoredStr {
    components: Vec<Component>,
}

impl View for ColoredStr {
    type V = Seq<Component>;

    closed spec fn view(&self) -> Seq<Component> {
        self.components@
    }
}

impl ColoredStr {
    /// Builds a colored string from its components, in order.
    pub fn new(components: Vec<Component>) -> (r: ColoredStr)
        ensures
            r@ == components@,
    {
        ColoredStr { components }
    }

    /// The `(character, color)` pairs of the run, in order: each character
    /// carries the color of the last marker before it, or none.
    pub fn pairs(&self) -> (r: Vec<(char, Option<Color>)>)
        ensures
            r@ == pairs_of(self@),
    {
        let mut out: Vec<(char, Option<Color>)> = Vec::new();
        let mut cur: Option<Color> = None;
        let mut k: usize = 0;
        proof {
            assert(self@.take(0) =~= Seq::<Component>::empty());
        }
        while k < self.components.len()
            invariant
                k <= self@.len(),
                self@ == self.components@,
                out@ == pairs_from(self@.take(k as int), None),
                cur == color_after(self@.take(k as int), None),
            decreases self@.len() - k,
        {
            proof {
                assert(self@.take(k as int + 1) =~= self@.take(k as int) + seq![self@[k as int]]);
                lemma_pairs_from_concat(self@.take(k as int), seq![self@[k as int]], None);
                assert(seq![self@[k as int]].drop_first() =~= Seq::<Component>::empty());
            }
            let ghost prev_pairs = out@;
            let ghost prev_cur = cur;
            match &self.components[k] {
                Component::Str(s) => {
                    let text: &str = s.as_str();
                    let n: usize = text.unicode_len();
                    let mut m: usize = 0;
                    while m < n
                        invariant
                            m <= n,
                            n == s@.len(),
                            text@ == s@,
                            cur == prev_cur,
                            out@ == prev_pairs + s@.take(m as int).map_values(
                                |c: char| (c, prev_cur),
                            ),
                        decreases n - m,
                    {
                        let c = text.get_char(m);
                        out.push((c, cur));
                        proof {
                            assert(s@.take(m as int + 1).map_values(|c: char| (c, prev_cur))
                                =~= s@.take(m as int).map_values(|c: char| (c, prev_cur)) + seq![
                                (s@[m as int], prev_cur)
                            ]);
                        }
                        m = m + 1;
                    }
                    proof {
                        assert(s@.take(n as int) =~= s@);
                        let comp = self@[k as int];
                        assert(comp == Component::Str(*s));
                        assert(seq![comp][0] == comp);
                        assert(seq![comp].drop_first() =~= Seq::<Component>::empty());
                        assert(pairs_from(Seq::<Component>::empty(), prev_cur)
                            == Seq::<(char, Option<Color>)>::empty());
                        assert(pairs_from(seq![comp], prev_cur) == s@.map_values(
                            |c: char| (c, prev_cur),
                        ) + pairs_from(Seq::<Component>::empty(), prev_cur));
                        assert(out@ =~= pairs_from(self@.take(k as int + 1), None));
                        assert(color_after(Seq::<Component>::empty(), prev_cur) == prev_cur);
                        assert(color_after(seq![comp], prev_cur) == prev_cur);
                    }
                },
                Component::Char(c) => {
                    out.push((*c, cur));
                    proof {
                        let comp = self@[k as int];
                        assert(comp == Component::Char(*c));
                        assert(seq![comp][0] == comp);
                        assert(seq![comp].drop_first() =~= Seq::<Component>::empty());
                        assert(pairs_from(Seq::<Component>::empty(), prev_cur)
                            == Seq::<(char, Option<Color>)>::empty());
                        assert(pairs_from(seq![comp], prev_cur) == seq![(*c, prev_cur)]
                            + pairs_from(Seq::<Component>::empty(), prev_cur));
                        assert(out@ =~= pairs_from(self@.take(k as int + 1), None));
                        assert(color_after(Seq::<Component>::empty(), prev_cur) == prev_cur);
                        assert(color_after(seq![comp], prev_cur) == prev_cur);
                    }
                },
                Component::Color(col) => {
                    cur = Some(*col);
                    proof {
                        let comp = self@[k as int];
                        assert(comp == Component::Color(*col));
                        assert(seq![comp][0] == comp);
                        assert(seq![comp].drop_first() =~= Seq::<Component>::empty());
                        assert(pairs_from(Seq::<Component>::empty(), Some(*col))
                            == Seq::<(char, Option<Color>)>::empty());
                        assert(pairs_from(seq![comp], prev_cur)
                            == pairs_from(Seq::<Component>::empty(), Some(*col)));
                        assert(out@ =~= pairs_from(self@.take(k as int + 1), None));
                        assert(color_after(Seq::<Component>::empty(), Some(*col)) == Some(*col));
                        assert(color_after(seq![comp], prev_cur) == Some(*col));
                    }
                },
            }
            k = k + 1;
        }
        proof {
            assert(self@.take(self@.len() as int) =~= self@);
        }
        out
    }

    /// An iterator over the `(character, color)` pairs of the run.
    pub fn iter(&self) -> (it: ColorStrIter)
        ensures
            it.pairs@ == pairs_of(self@),
            it.pos == 0,
    {
        ColorStrIter { pairs: self.pairs(), pos: 0 }
    }
}

/// An iterator over the `(character, color)` pairs of a [`ColoredStr`],
/// yielding them in sequence order through [`ColorStrIter::next`].
#[derive(Debug)]
pub struct ColorStrIter {
    /// The pairs of the run, in order.
    pub pairs: Vec<(char, Option<Color>)>,
    /// How many pairs were already yielded.
    pub pos: usize,
}

impl ColorStrIter {
    /// The next `(character, color)` pair, or none when the run is done.
    pub fn next(&mut self) -> (r: Option<(char, Option<Color>)>)
        ensures
            final(self).pairs@ == old(self).pairs@,
            old(self).pos < old(self).pairs@.len() ==> {
                &&& r == Some(old(self).pairs@[old(self).pos as int])
                &&& final(self).pos == old(self).pos + 1
            },
            old(self).pos >= old(self).pairs@.len() ==> r is None && final(self).pos == old(
                self,
            ).pos,
    {
        if self.pos < self.pairs.len() {
            let pair = self.pairs[self.pos];
            self.pos = self.pos + 1;
            Some(pair)
        } else {
            None
        }
    }
}

} // verus!
