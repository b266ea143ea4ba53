//! Whitespace-margin arithmetic: measuring, producing and shifting the
//! leading whitespace of a line.

use vstd::prelude::*;

verus! {

/// An indentation policy (spaces or tabs-and-spaces) and a tab width.
#[derive(PartialEq, Eq, Clone, Copy, Debug, Structural)]
pub struct Indentation {
    pub use_spaces: bool,
    pub spaces_per_tab: usize,
}

/// The characters that make up a left margin.
pub open spec fn is_margin_char(c: char) -> bool {
    c == ' ' || c == '\t'
}

/// The number of leading margin characters of `s`.
pub open spec fn margin_len(s: Seq<char>) -> nat
    decreases s.len(),
{
    if s.len() == 0 || !is_margin_char(s[0]) {
        0
    } else {
        1 + margin_len(s.subrange(1, s.len() as int))
    }
}

/// The logical width of the left margin of `s`: a space counts 1, a tab
/// counts `spt`.
pub open spec fn margin_width(s: Seq<char>, spt: nat) -> nat
    decreases s.len(),
{
    if s.len() == 0 || !is_margin_char(s[0]) {
        0
    } else {
        (if s[0] == ' ' {
            1nat
        } else {
            spt
        }) + margin_width(s.subrange(1, s.len() as int), spt)
    }
}

/// The margin never reaches past the end of the line.
pub proof fn lemma_margin_len_le(s: Seq<char>)
    ensures
        margin_len(s) <= s.len(),
    decreases s.len(),
{
    if s.len() != 0 && is_margin_char(s[0]) {
        lemma_margin_len_le(s.subrange(1, s.len() as int));
    }
}

/// `n` identical characters.
pub open spec fn repeat_char(c: char, n: nat) -> Seq<char> {
    Seq::new(n, |i: int| c)
}

/// The margin text that renders a width of `n` logical spaces under `ind`:
/// all spaces, or as many tabs as fit followed by spaces for the remainder.
pub open spec fn produce_spec(ind: Indentation, n: nat) -> Seq<char> {
    if ind.use_spaces {
        repeat_char(' ', n)
    } else {
        repeat_char('\t', n / (ind.spaces_per_tab as nat)) + repeat_char(
            ' ',
            n % (ind.spaces_per_tab as nat),
        )
    }
}

/// The line `s` re-indented by `delta` tab stops under `ind`: the margin is
/// recomputed from the shifted width, clamped at zero, and the content after
/// the margin is kept when `include_content` holds.
pub open spec fn indent_spec(
    ind: Indentation,
    s: Seq<char>,
    delta: int,
    include_content: bool,
) -> Seq<char> {
    let w = margin_width(s, ind.spaces_per_tab as nat) as int;
    let req = w + delta * (ind.spaces_per_tab as int);
    let act = (if req < 0 {
        0
    } else {
        req
    }) as nat;
    produce_spec(ind, act) + (if include_content {
        s.subrange(margin_len(s) as int, s.len() as int)
    } else {
        Seq::<char>::empty()
    })
}

impl Indentation {
    /// A policy is well formed when a tab stop is at least one space wide.
    pub open spec fn wf(&self) -> bool {
        self.spaces_per_tab >= 1
    }

    /// Returns an all-spaces indentation policy with each tab level `count`
    /// spaces apart.
    pub fn spaces(count: usize) -> (r: Indentation)
        requires
            count >= 1,
        ensures
            r == (Indentation { use_spaces: true, spaces_per_tab: count }),
            r.wf(),
    {
        Indentation { use_spaces: true, spaces_per_tab: count }
    }

    /// Returns a tabs-and-spaces indentation policy with each tab taking up
    /// `spaces_per_tab` spaces. Margins produced by this policy start with as
    /// many tabs as possible and wrap up the remainder with spaces.
    pub fn tabs(spaces_per_tab: usize) -> (r: Indentation)
        requires
            spaces_per_tab >= 1,
        ensures
            r == (Indentation { use_spaces: false, spaces_per_tab }),
            r.wf(),
    {
        Indentation { use_spaces: false, spaces_per_tab }
    }

    /// Returns `(spaces, cut)` where `spaces` is the logical width of the
    /// left margin of `line` (spaces count 1, tabs count `spaces_per_tab`)
    /// and `cut` is the number of leading margin characters.
    pub fn measure(&self, line: &str) -> (r: (usize, usize))
        requires
            self.wf(),
            margin_width(line@, self.spaces_per_tab as nat) <= usize::MAX,
        ensures
            r.0 == margin_width(line@, self.spaces_per_tab as nat),
            r.1 == margin_len(line@),
    {
        let n = line.unicode_len();
        let mut spaces: usize = 0;
        let mut i: usize = 0;
        proof {
            assert(line@.subrange(0, n as int) =~= line@);
        }
        while i < n
            invariant
                i <= n,
                n == line@.len(),
                self.spaces_per_tab >= 1,
                margin_width(line@, self.spaces_per_tab as nat) <= usize::MAX,
                margin_width(line@, self.spaces_per_tab as nat) == spaces + margin_width(
                    line@.subrange(i as int, n as int),
                    self.spaces_per_tab as nat,
                ),
                margin_len(line@) == i + margin_len(line@.subrange(i as int, n as int)),
            decreases n - i,
        {
            let c = line.get_char(i);
            proof {
                let cur = line@.subrange(i as int, n as int);
                assert(cur[0] == line@[i as int]);
                assert(cur.subrange(1, cur.len() as int) =~= line@.subrange(i + 1, n as int));
                if is_margin_char(c) {
                    assert(margin_width(cur, self.spaces_per_tab as nat) == (if c == ' ' {
                        1nat
                    } else {
                        self.spaces_per_tab as nat
                    }) + margin_width(
                        line@.subrange(i + 1, n as int),
                        self.spaces_per_tab as nat,
                    ));
                }
            }
            if c == ' ' {
                spaces = spaces + 1;
            } else if c == '\t' {
                spaces = spaces + self.spaces_per_tab;
            } else {
                return (spaces, i);
            }
            i = i + 1;
        }
        proof {
            assert(line@.subrange(n as int, n as int) =~= Seq::<char>::empty());
        }
        (spaces, n)
    }

    /// Returns the white space for a left margin with a visual width of
    /// `spaces` spaces, using either spaces or tabs-and-spaces.
    ///
    /// If this policy uses tabs and the requested number of spaces is not a
    /// multiple of `spaces_per_tab`, spaces complete the left margin.
    pub fn produce(&self, spaces: usize) -> (r: String)
        requires
            self.wf(),
        ensures
            r@ == produce_spec(*self, spaces as nat),
    {
        if self.use_spaces {
            let mut result = String::new();
            let mut i: usize = 0;
            proof {
                reveal_strlit(" ");
                assert(" "@ =~= seq![' ']);
            }
            while i < spaces
                invariant
                    i <= spaces,
                    " "@ == seq![' '],
                    result@ == repeat_char(' ', i as nat),
                decreases spaces - i,
            {
                result.append(" ");
                proof {
                    assert(result@ =~= repeat_char(' ', (i + 1) as nat));
                }
                i = i + 1;
            }
            proof {
                assert(result@ =~= produce_spec(*self, spaces as nat));
            }
            result
        } else {
            let tabs = spaces / self.spaces_per_tab;
            let rest = spaces % self.spaces_per_tab;
            let mut result = String::new();
            let mut i: usize = 0;
            proof {
                reveal_strlit(" ");
                reveal_strlit("\t");
                assert(" "@ =~= seq![' ']);
                assert("\t"@ =~= seq!['\t']);
            }
            while i < tabs
                invariant
                    i <= tabs,
                    "\t"@ == seq!['\t'],
                    result@ == repeat_char('\t', i as nat),
                decreases tabs - i,
            {
                result.append("\t");
                proof {
                    assert(result@ =~= repeat_char('\t', (i + 1) as nat));
                }
                i = i + 1;
            }
            let mut j: usize = 0;
            while j < rest
                invariant
                    j <= rest,
                    " "@ == seq![' '],
                    result@ == repeat_char('\t', tabs as nat) + repeat_char(' ', j as nat),
                decreases rest - j,
            {
                result.append(" ");
                proof {
                    assert(result@ =~= repeat_char('\t', tabs as nat) + repeat_char(
                        ' ',
                        (j + 1) as nat,
                    ));
                }
                j = j + 1;
            }
            proof {
                assert(result@ =~= repeat_char('\t', tabs as nat) + repeat_char(' ', j as nat));
                assert(result@ =~= produce_spec(*self, spaces as nat));
            }
            result
        }
    }

    /// Returns `line` indented by `indent_delta` tab stops.
    ///
    /// If `indent_delta` is negative, this performs a dedent; a dedent past
    /// the left edge yields an empty margin, never a negative one.
    ///
    /// If `include_content` is false, only the recomputed left margin is
    /// returned; the content after it is omitted.
    pub fn indent(&self, line: &str, indent_delta: isize, include_content: bool) -> (r: String)
        requires
            self.wf(),
            margin_width(line@, self.spaces_per_tab as nat) <= usize::MAX,
            margin_width(line@, self.spaces_per_tab as nat) + indent_delta * (
            self.spaces_per_tab as int) <= usize::MAX,
        ensures
            r@ == indent_spec(*self, line@, indent_delta as int, include_content),
    {
        let (spaces, cut) = self.measure(line);
        let spt = self.spaces_per_tab;
        let act: usize = if indent_delta >= 0 {
            let d = indent_delta as usize;
            assert(d * spt <= usize::MAX - spaces);
            spaces + d * spt
        } else {
            let m: usize = if indent_delta == isize::MIN {
                (isize::MAX as usize) + 1
            } else {
                (-indent_delta) as usize
            };
            assert(m as int == -(indent_delta as int));
            let q = spaces / spt;
            if m > q {
                proof {
                    assert(m * spt > q * spt) by (nonlinear_arith)
                        requires
                            m > q,
                            spt >= 1,
                    ;
                    assert(q * spt + spt > spaces) by (nonlinear_arith)
                        requires
                            q == spaces as int / spt as int,
                            spt >= 1,
                    ;
                    assert(m * spt >= q * spt + spt) by (nonlinear_arith)
                        requires
                            m > q,
                            spt >= 1,
                    ;
                }
                0
            } else {
                proof {
                    assert(m * spt <= q * spt) by (nonlinear_arith)
                        requires
                            m <= q,
                            spt >= 1,
                    ;
                    assert(q * spt <= spaces) by (nonlinear_arith)
                        requires
                            q == spaces as int / spt as int,
                            spt >= 1,
                    ;
                }
                spaces - m * spt
            }
        };
        let mut result = self.produce(act);
        if include_content {
            let n = line.unicode_len();
            proof {
                lemma_margin_len_le(line@);
            }
            result.append(line.substring_char(cut, n));
        }
        proof {
            let spti = self.spaces_per_tab as int;
            let di = indent_delta as int;
            let w = margin_width(line@, self.spaces_per_tab as nat) as int;
            if indent_delta >= 0 {
                assert(di * spti >= 0) by (nonlinear_arith)
                    requires
                        di >= 0,
                        spti >= 0,
                ;
            } else {
                assert(di * spti == -((-di) * spti)) by (nonlinear_arith);
            }
            assert(act as int == (if w + di * spti < 0 {
                0int
            } else {
                w + di * spti
            }));
            assert(result@ =~= indent_spec(*self, line@, indent_delta as int, include_content));
        }
        result
    }
}

} // verus!
