//! Parse-failure accumulator: the set of expected-token descriptions at the
//! furthest position any failing alternative reached, plus free-form
//! diagnostic messages, for user-facing error rendering.

use vstd::prelude::*;
use crate::text::{char_string, str_eq, chars_to_string};

verus! {

/// A parse failure being built up while the parser backtracks through
/// alternatives.  `options` is kept free of duplicates; `lastpos` only ever
/// grows, so the reported position is the furthest one reached.
#[derive(Debug, Clone)]
pub struct Options {
    options: Vec<String>,
    lastpos: u64,
    messages: Vec<String>,
    source: String,
}

impl Options {
    /// The distinct expected-token descriptions, in insertion order.
    pub closed spec fn opts(self) -> Seq<Seq<char>> {
        self.options@.map_values(|s: String| s@)
    }

    /// The furthest failing position seen so far.
    pub closed spec fn last_pos(self) -> u64 {
        self.lastpos
    }

    /// The diagnostic messages, in the order they were attached.
    pub closed spec fn msgs(self) -> Seq<Seq<char>> {
        self.messages@.map_values(|s: String| s@)
    }

    /// The source text the failure refers to.
    pub closed spec fn src(self) -> Seq<char> {
        self.source@
    }

    /// The expected-token descriptions hold no duplicates.
    pub closed spec fn wf(self) -> bool {
        forall|i: int, j: int|
            0 <= i < j < self.opts().len() ==> self.opts()[i] != self.opts()[j]
    }

    /// A fresh accumulator for the given source text: no expectations, no
    /// messages, position zero.
    pub fn new(source: String) -> (r: Options)
        ensures
            r.opts() == Seq::<Seq<char>>::empty(),
            r.last_pos() == 0,
            r.msgs() == Seq::<Seq<char>>::empty(),
            r.src() == source@,
            r.wf(),
    {
        let r = Options { options: Vec::new(), lastpos: 0, messages: Vec::new(), source };
        proof {
            assert(r.opts() =~= Seq::<Seq<char>>::empty());
            assert(r.msgs() =~= Seq::<Seq<char>>::empty());
        }
        r
    }

    /// A copy whose views are the same: the same expectation set, the
    /// same position, messages and source.  (The derived `Clone` serves
    /// callers outside the proofs; this copy is the one the parser's
    /// contracts can speak about.)
    pub fn duplicate(&self) -> (r: Options)
        ensures
            r.opts() == self.opts(),
            r.last_pos() == self.last_pos(),
            r.msgs() == self.msgs(),
            r.src() == self.src(),
            self.wf() ==> r.wf(),
    {
        let mut options: Vec<String> = Vec::new();
        let n: usize = self.options.len();
        let mut i: usize = 0;
        while i < n
            invariant
                i <= n,
                n == self.options@.len(),
                options@.len() == i,
                forall|k: int| 0 <= k < i ==> #[trigger] options@[k]@ == self.options@[k]@,
            decreases n - i,
        {
            options.push((&self.options[i]).clone());
            i = i + 1;
        }
        let mut messages: Vec<String> = Vec::new();
        let m: usize = self.messages.len();
        let mut j: usize = 0;
        while j < m
            invariant
                j <= m,
                m == self.messages@.len(),
                messages@.len() == j,
                forall|k: int| 0 <= k < j ==> #[trigger] messages@[k]@ == self.messages@[k]@,
            decreases m - j,
        {
            messages.push((&self.messages[j]).clone());
            j = j + 1;
        }
        let r = Options {
            options,
            lastpos: self.lastpos,
            messages,
            source: self.source.clone(),
        };
        proof {
            assert(r.opts() =~= self.opts());
            assert(r.msgs() =~= self.msgs());
        }
        r
    }

    /// Appends a diagnostic message.
    pub fn message(self, msg: &str) -> (r: Options)
        ensures
            r.opts() == self.opts(),
            r.last_pos() == self.last_pos(),
            r.msgs() == self.msgs().push(msg@),
            r.src() == self.src(),
            self.wf() ==> r.wf(),
    {
        let mut s = self;
        let m = msg.to_owned();
        s.messages.push(m);
        proof {
            assert(s.msgs() =~= old_msgs_push(self, msg@));
        }
        s
    }

    /// Raises the recorded position to `pos` if that is further than any
    /// failure seen before; never lowers it.
    pub fn pos(self, pos: u64) -> (r: Options)
        ensures
            r.opts() == self.opts(),
            r.last_pos() == if pos > self.last_pos() { pos } else { self.last_pos() },
            r.msgs() == self.msgs(),
            r.src() == self.src(),
            self.wf() ==> r.wf(),
    {
        let mut s = self;
        if pos > s.lastpos {
            s.lastpos = pos;
        }
        s
    }

    /// Adds a single expected character to the expectation set.
    pub fn add(self, value: char) -> (r: Options)
        ensures
            r.opts() == if self.opts().contains(seq![value]) {
                self.opts()
            } else {
                self.opts().push(seq![value])
            },
            r.last_pos() == self.last_pos(),
            r.msgs() == self.msgs(),
            r.src() == self.src(),
            self.wf() ==> r.wf(),
    {
        let s = char_string(value);
        self.add_string(s)
    }

    /// Adds an expected-token description to the expectation set, unless an
    /// equal one is already present.
    pub fn add_str(self, value: &str) -> (r: Options)
        ensures
            r.opts() == if self.opts().contains(value@) {
                self.opts()
            } else {
                self.opts().push(value@)
            },
            r.last_pos() == self.last_pos(),
            r.msgs() == self.msgs(),
            r.src() == self.src(),
            self.wf() ==> r.wf(),
    {
        self.add_string(value.to_owned())
    }

    fn add_string(self, value: String) -> (r: Options)
        ensures
            r.opts() == if self.opts().contains(value@) {
                self.opts()
            } else {
                self.opts().push(value@)
            },
            r.last_pos() == self.last_pos(),
            r.msgs() == self.msgs(),
            r.src() == self.src(),
            self.wf() ==> r.wf(),
    {
        let mut s = self;
        let n: usize = s.options.len();
        let mut i: usize = 0;
        while i < n
            invariant
                i <= n,
                n == s.options@.len(),
                s == self,
                forall|j: int| 0 <= j < i ==> self.opts()[j] != value@,
            decreases n - i,
        {
            if str_eq(s.options[i].as_str(), value.as_str()) {
                proof {
                    assert(self.opts()[i as int] == value@);
                    assert(self.opts().contains(value@));
                }
                return s;
            }
            i = i + 1;
        }
        proof {
            assert(forall|j: int| 0 <= j < self.opts().len() ==> self.opts()[j] != value@);
            assert(!self.opts().contains(value@));
        }
        s.options.push(value);
        proof {
            assert(s.opts() =~= self.opts().push(value@));
            assert(self.wf() ==> s.wf()) by {
                if self.wf() {
                    assert(forall|a: int, b: int|
                        0 <= a < b < s.opts().len() ==> s.opts()[a] != s.opts()[b]);
                }
            }
        }
        s
    }

    /// Unions another accumulator's expectation set into this one; the
    /// other's messages and position are not taken over.
    pub fn merge(self, other: Options) -> (r: Options)
        ensures
            r.last_pos() == self.last_pos(),
            r.msgs() == self.msgs(),
            r.src() == self.src(),
            self.wf() ==> r.wf(),
            forall|v: Seq<char>|
                #[trigger] r.opts().contains(v) <==> self.opts().contains(v)
                    || other.opts().contains(v),
    {
        let mut s = self;
        let n: usize = other.options.len();
        let mut i: usize = 0;
        while i < n
            invariant
                i <= n,
                n == other.options@.len(),
                s.last_pos() == self.last_pos(),
                s.msgs() == self.msgs(),
                s.src() == self.src(),
                self.wf() ==> s.wf(),
                forall|v: Seq<char>|
                    #[trigger] s.opts().contains(v) <==> self.opts().contains(v)
                        || other.opts().subrange(0, i as int).contains(v),
            decreases n - i,
        {
            let ghost pre = s;
            let item: String = (&other.options[i]).clone();
            proof {
                assert(item@ == other.opts()[i as int]);
            }
            s = s.add_string(item);
            i = i + 1;
            proof {
                let sub = other.opts().subrange(0, i as int);
                assert forall|v: Seq<char>| #[trigger] s.opts().contains(v) implies
                    self.opts().contains(v) || sub.contains(v) by {
                    if pre.opts().contains(v) {
                        if !self.opts().contains(v) {
                            let k = choose|k: int|
                                0 <= k < i - 1 && #[trigger] other.opts().subrange(0, i - 1)[k]
                                    == v;
                            assert(sub[k] == v);
                        }
                    } else {
                        assert(v == other.opts()[i - 1]);
                        assert(sub[i - 1] == v);
                    }
                }
                assert forall|v: Seq<char>|
                    self.opts().contains(v) || sub.contains(v) implies
                    #[trigger] s.opts().contains(v) by {
                    let item_v = other.opts()[i - 1];
                    if self.opts().contains(v) || other.opts().subrange(0, i - 1).contains(v) {
                        assert(pre.opts().contains(v));
                        let k = choose|k: int|
                            0 <= k < pre.opts().len() && #[trigger] pre.opts()[k] == v;
                        assert(s.opts()[k] == v);
                        assert(s.opts().contains(v));
                    } else {
                        let k = choose|k: int| 0 <= k < i && #[trigger] sub[k] == v;
                        if k < i - 1 {
                            assert(other.opts().subrange(0, i - 1)[k] == v);
                            assert(other.opts().subrange(0, i - 1).contains(v));
                        } else {
                            assert(v == item_v);
                            if pre.opts().contains(item_v) {
                                let k2 = choose|k2: int|
                                    0 <= k2 < pre.opts().len() && #[trigger] pre.opts()[k2]
                                        == item_v;
                                assert(s.opts()[k2] == v);
                            } else {
                                assert(s.opts()[pre.opts().len() as int] == v);
                            }
                            assert(s.opts().contains(v));
                        }
                    }
                }
            }
        }
        proof {
            assert(other.opts().subrange(0, n as int) =~= other.opts());
        }
        s
    }

    /// Renders the failure for display: the source line, a caret under the
    /// furthest failing column, the expectation set and the messages.
    pub fn render(&self) -> (r: String)
        ensures
            r@ == render_spec(*self),
    {
        let mut out: Vec<char> = Vec::new();
        let mut src: Vec<char> = crate::text::str_to_chars(self.source.as_str());
        out.append(&mut src);
        out.push('\n');
        let mut i: u64 = 0;
        while i < self.lastpos
            invariant
                i <= self.lastpos || self.lastpos < i <= self.lastpos + 1,
                i <= self.lastpos,
                out@ == self.src() + seq!['\n'] + caret_pad(i as int),
            decreases self.lastpos - i,
        {
            out.push(' ');
            i = i + 1;
            proof {
                assert(caret_pad(i as int) =~= caret_pad(i - 1).push(' '));
                assert(out@ =~= self.src() + seq!['\n'] + caret_pad(i as int));
            }
        }
        out.push('^');
        out.push('\n');
        let n: usize = self.options.len();
        if n > 0 {
            let mut hdr: Vec<char> = crate::text::str_to_chars(EXPECTED_HEADER);
            out.append(&mut hdr);
            let mut j: usize = 0;
            while j < n
                invariant
                    j <= n,
                    n == self.options@.len(),
                    out@ == self.src() + seq!['\n'] + caret_pad(self.lastpos as int)
                        + seq!['^', '\n'] + EXPECTED_HEADER@ + opts_list(self.opts(), j as int),
                decreases n - j,
            {
                if j > 0 {
                    out.push(',');
                    out.push(' ');
                }
                let mut item: Vec<char> = crate::text::str_to_chars(self.options[j].as_str());
                out.append(&mut item);
                j = j + 1;
                proof {
                    assert(out@ =~= self.src() + seq!['\n'] + caret_pad(self.lastpos as int)
                        + seq!['^', '\n'] + EXPECTED_HEADER@ + opts_list(self.opts(), j as int));
                }
            }
            out.push(']');
            out.push('\n');
        }
        let m: usize = self.messages.len();
        let ghost mid = out@;
        let mut k: usize = 0;
        while k < m
            invariant
                k <= m,
                m == self.messages@.len(),
                out@ == mid + msgs_list(self.msgs(), k as int),
            decreases m - k,
        {
            let mut msg: Vec<char> = crate::text::str_to_chars(self.messages[k].as_str());
            out.append(&mut msg);
            out.push('\n');
            k = k + 1;
            proof {
                assert(out@ =~= mid + msgs_list(self.msgs(), k as int));
            }
        }
        proof {
            assert(out@ =~= render_spec(*self));
        }
        chars_to_string(&out)
    }
}

spec fn old_msgs_push(o: Options, m: Seq<char>) -> Seq<Seq<char>> {
    o.msgs().push(m)
}

/// Every expectation recorded in `base` is still recorded in `o`: the
/// accumulator only ever grows as the parser backtracks, so no failed
/// alternative's expectations are lost on the way out.
pub open spec fn opts_monotone(base: Options, o: Options) -> bool {
    forall|v: Seq<char>| base.opts().contains(v) ==> #[trigger] o.opts().contains(v)
}

/// Appending one description keeps every description already present.
pub proof fn lemma_opts_push_keeps(base: Seq<Seq<char>>, x: Seq<char>)
    ensures
        forall|v: Seq<char>| base.contains(v) ==> #[trigger] base.push(x).contains(v),
{
    assert forall|v: Seq<char>| base.contains(v) implies base.push(x).contains(v) by {
        let i = choose|i: int| 0 <= i < base.len() && base[i] == v;
        assert(base.push(x)[i] == v);
    }
}

/// Spaces that put the caret under the failing column.
pub open spec fn caret_pad(n: int) -> Seq<char>
    decreases n,
{
    if n <= 0 {
        seq![]
    } else {
        caret_pad(n - 1).push(' ')
    }
}

/// Header line shown before the expectation set.
pub const EXPECTED_HEADER: &'static str = "expected any of: [";

/// The expectation set rendered as a comma-separated list, first `k` items.
pub open spec fn opts_list(opts: Seq<Seq<char>>, k: int) -> Seq<char>
    decreases k,
{
    if k <= 0 {
        seq![]
    } else if k == 1 {
        opts[0]
    } else {
        opts_list(opts, k - 1) + seq![',', ' '] + opts[k - 1]
    }
}

/// The messages, one per line, first `k` of them.
pub open spec fn msgs_list(msgs: Seq<Seq<char>>, k: int) -> Seq<char>
    decreases k,
{
    if k <= 0 {
        seq![]
    } else {
        msgs_list(msgs, k - 1) + msgs[k - 1] + seq!['\n']
    }
}

/// The full rendering of a failure: source, caret line, expectation set
/// (when any expectation was recorded) and messages.
pub open spec fn render_spec(o: Options) -> Seq<char> {
    let head = o.src() + seq!['\n'] + caret_pad(o.last_pos() as int) + seq!['^', '\n'];
    let opts_part = if o.opts().len() > 0 {
        EXPECTED_HEADER@ + opts_list(o.opts(), o.opts().len() as int) + seq![']', '\n']
    } else {
        seq![]
    };
    head + opts_part + msgs_list(o.msgs(), o.msgs().len() as int)
}

} // verus!
