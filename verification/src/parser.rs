//! The recursive-descent parser.  Every method's contract equates it with
//! its spec-level counterpart in [`crate::parse_spec`], so the tree a parse
//! returns — and the position any failure is reported at — is a pure
//! function of the source text and the advanced-mode flag.

use vstd::prelude::*;
use crate::ast::{Ast, AstS, obox_view};
use crate::filtermodifier::FilterModifier;
use crate::options::Options;
use crate::parse_spec::{
    Tok, TokC, PRes, skip_ws, lemma_skip_ws, sp_expect, sp_accept, sp_accept_str,
    sp_accept_str_from, sp_accept_one_of, digit_list, sp_digits, sp_number,
    sp_number_or_percent, sp_dice_fm, sp_dice, sp_atom, sp_power, sp_power_body, sp_factor,
    sp_term_tail, sp_term_rest, sp_term, sp_sum_rest, sp_sum, sp_parse, stepn,
};
use crate::text::{char_is_whitespace, chars_to_string, str_to_chars};

verus! {

/// The parser: the source as characters, a cursor, the source kept as text
/// for error rendering, and the advanced-mode flag (composite dice
/// notation), which backtracking snapshots carry along.
#[derive(Debug)]
pub struct Parser {
    chars: Vec<char>,
    pos: usize,
    source: String,
    pub advanced: bool,
}

/// How an executable parse outcome matches a spec-level one: a success
/// returns the modelled tree and leaves the cursor where the model says; a
/// failure leaves the cursor at the model's failure position.
pub open spec fn pres_match(pr: PRes, r: Result<Ast, Options>, pos: nat) -> bool {
    match pr {
        PRes::Succ(a, q) => r is Ok && (r matches Ok(ast) ==> ast@ == a) && pos == q,
        PRes::Fail(q) => r is Err && pos == q,
    }
}

/// The failure a production hands back never loses anything it was given:
/// the expectation set only grows, the source is the same, and a
/// duplicate-free set stays duplicate-free.
pub open spec fn err_grows(base: Options, o: Options) -> bool {
    &&& crate::options::opts_monotone(base, o)
    &&& o.src() == base.src()
    &&& base.wf() ==> o.wf()
}

/// `o` is exactly the failure a single [`Parser::accept`] of `c` over
/// `base` produces: `base`'s expectations with `c` recorded once.
pub open spec fn accept_err_opts(o: Options, base: Options, c: char) -> bool {
    o.opts() == if base.opts().contains(seq![c]) {
        base.opts()
    } else {
        base.opts().push(seq![c])
    }
}

/// `o` records exactly the union of a failed atom's three alternatives'
/// expectations over `base`: the dice branch's `d`, the group branch's
/// `(`, and the number branch's digit class.
pub open spec fn merged_atom_opts(o: Options, base: Options) -> bool {
    forall|v: Seq<char>|
        #[trigger] o.opts().contains(v) <==> base.opts().contains(v) || v == seq!['d'] || v
            == seq!['('] || v == "0-9"@
}

impl Parser {
    /// The source text, as the character sequence all contracts speak of.
    pub closed spec fn src(self) -> Seq<char> {
        self.chars@
    }

    /// The cursor: how many characters are consumed.
    pub closed spec fn at(self) -> nat {
        self.pos as nat
    }

    /// The cursor is within the source and the rendering copy of the
    /// source matches it.
    pub closed spec fn wf(self) -> bool {
        self.pos <= self.chars@.len() && self.source@ == self.chars@
    }

    /// The advanced-mode flag, for contracts.
    pub closed spec fn adv(self) -> bool {
        self.advanced
    }

    /// The parts of the state that parsing never changes: the source and
    /// the mode.
    pub open spec fn same_input(self, other: Parser) -> bool {
        self.src() == other.src() && self.adv() == other.adv()
    }

    /// A parser over the given text, in plain (non-advanced) mode, with the
    /// cursor at the start.
    pub fn new(expr: &str) -> (r: Parser)
        ensures
            r.wf(),
            r.src() == expr@,
            r.at() == 0,
            !r.adv(),
    {
        Parser { chars: str_to_chars(expr), pos: 0, source: expr.to_owned(), advanced: false }
    }

    /// The same parser with advanced mode switched on.
    pub fn advanced(self) -> (r: Parser)
        ensures
            r.src() == self.src(),
            r.at() == self.at(),
            r.adv(),
            self.wf() ==> r.wf(),
    {
        let mut s = self;
        s.advanced = true;
        s
    }

    /// An immutable snapshot of the parser state, for backtracking.
    #[verifier::loop_isolation(false)]
    pub fn backup(&self) -> (r: Parser)
        ensures
            r.src() == self.src(),
            r.at() == self.at(),
            r.adv() == self.adv(),
            self.wf() ==> r.wf(),
    {
        let n: usize = self.chars.len();
        let mut chars: Vec<char> = Vec::new();
        let mut i: usize = 0;
        while i < n
            invariant
                i <= n,
                n == self.chars@.len(),
                chars@ == self.chars@.subrange(0, i as int),
            decreases n - i,
        {
            chars.push(self.chars[i]);
            i = i + 1;
            proof {
                assert(chars@ =~= self.chars@.subrange(0, i as int));
            }
        }
        proof {
            assert(chars@ =~= self.chars@);
        }
        Parser { chars, pos: self.pos, source: self.source.clone(), advanced: self.advanced }
    }

    /// Winds the parser back to a snapshot.
    pub fn restore(&mut self, other: Parser)
        ensures
            final(self).src() == other.src(),
            final(self).at() == other.at(),
            final(self).adv() == other.adv(),
            other.wf() ==> final(self).wf(),
    {
        self.chars = other.chars;
        self.pos = other.pos;
        self.source = other.source;
        self.advanced = other.advanced;
    }

    /// Skips whitespace, then reports whether `c` stands at the cursor —
    /// without consuming it.  The skipped whitespace stays consumed even on
    /// failure, so reported positions align with meaningful tokens.
    pub fn expect(&mut self, c: char, options: Options) -> (r: Result<(), Options>)
        requires
            old(self).wf(),
        ensures
            final(self).wf(),
            final(self).same_input(*old(self)),
            final(self).at() >= old(self).at(),
            match r {
                Ok(_) => sp_expect(final(self).src(), old(self).at(), c) == Tok::Hit(final(self).at()),
                Err(_) => sp_expect(final(self).src(), old(self).at(), c) == Tok::Miss(final(self).at()),
            },
            r matches Err(o) ==> {
                &&& o.opts() == if options.opts().contains(seq![c]) {
                    options.opts()
                } else {
                    options.opts().push(seq![c])
                }
                &&& o.last_pos() == if (final(self).at() as u64) > options.last_pos() {
                    final(self).at() as u64
                } else {
                    options.last_pos()
                }
                &&& o.msgs() == options.msgs()
                &&& o.src() == options.src()
                &&& options.wf() ==> o.wf()
            },
    {
        let ghost s = self.chars@;
        let ghost p0 = self.pos as nat;
        loop
            invariant
                self.wf(),
                self.chars@ == s,
                self.source@ == old(self).source@,
                self.advanced == old(self).advanced,
                self.pos >= p0,
                skip_ws(s, p0) == skip_ws(s, self.pos as nat),
            ensures
                self.wf(),
                self.chars@ == s,
                self.source@ == old(self).source@,
                self.advanced == old(self).advanced,
                self.pos >= p0,
                self.pos as nat == skip_ws(s, p0),
            decreases s.len() - self.pos,
        {
            if self.pos >= self.chars.len() {
                break;
            }
            let ch = self.chars[self.pos];
            if !char_is_whitespace(ch) {
                break;
            }
            self.pos = self.pos + 1;
        }
        if self.pos < self.chars.len() && self.chars[self.pos] == c {
            Ok(())
        } else {
            Err(options.add(c).pos(self.pos as u64))
        }
    }

    /// Skips whitespace and consumes `c` if it stands at the cursor.
    pub fn accept(&mut self, c: char, options: Options) -> (r: Result<(), Options>)
        requires
            old(self).wf(),
        ensures
            final(self).wf(),
            final(self).same_input(*old(self)),
            final(self).at() >= old(self).at(),
            match r {
                Ok(_) => sp_accept(final(self).src(), old(self).at(), c) == Tok::Hit(final(self).at()),
                Err(_) => sp_accept(final(self).src(), old(self).at(), c) == Tok::Miss(final(self).at()),
            },
            r matches Err(o) ==> {
                &&& o.opts() == if options.opts().contains(seq![c]) {
                    options.opts()
                } else {
                    options.opts().push(seq![c])
                }
                &&& o.last_pos() == if (final(self).at() as u64) > options.last_pos() {
                    final(self).at() as u64
                } else {
                    options.last_pos()
                }
                &&& o.msgs() == options.msgs()
                &&& o.src() == options.src()
                &&& options.wf() ==> o.wf()
            },
    {
        let res = self.expect(c, options);
        match res {
            Ok(_) => {
                let n: usize = self.chars.len();
                proof {
                    assert(self.pos < n);
                }
                self.pos = self.pos + 1;
                Ok(())
            },
            Err(e) => Err(e),
        }
    }

    /// Accepts the characters of `text` one after another; on any failure
    /// the cursor is restored to where the attempt started.
    #[verifier::loop_isolation(false)]
    pub fn accept_string(&mut self, text: &str, options: Options) -> (r: Result<(), Options>)
        requires
            old(self).wf(),
        ensures
            final(self).wf(),
            final(self).same_input(*old(self)),
            final(self).at() >= old(self).at(),
            match r {
                Ok(_) => sp_accept_str(final(self).src(), old(self).at(), text@) == Tok::Hit(final(self).at()),
                Err(_) => sp_accept_str(final(self).src(), old(self).at(), text@) == Tok::Miss(
                    old(self).at(),
                ) && final(self).at() == old(self).at(),
            },
            r matches Err(o) ==> {
                &&& o.msgs() == options.msgs()
                &&& o.src() == options.src()
                &&& o.last_pos() >= options.last_pos()
                &&& options.wf() ==> o.wf()
                &&& exists|i: int|
                    0 <= i < text@.len() && accept_err_opts(o, options, #[trigger] text@[i])
            },
    {
        let ghost s = self.chars@;
        let ghost p0 = self.pos as nat;
        let backup = self.backup();
        let t: Vec<char> = str_to_chars(text);
        let n: usize = t.len();
        let mut i: usize = 0;
        proof {
            assert(text@.skip(0) =~= text@);
        }
        while i < n
            invariant
                i <= n,
                n == text@.len(),
                t@ == text@,
                self.wf(),
                self.chars@ == s,
                self.source@ == old(self).source@,
                self.advanced == old(self).advanced,
                self.pos >= p0,
                backup.wf(),
                backup.src() == s,
                backup.at() == p0,
                backup.advanced == old(self).advanced,
                backup.source@ == old(self).source@,
                sp_accept_str_from(s, p0, p0, text@) == sp_accept_str_from(
                    s,
                    self.pos as nat,
                    p0,
                    text@.skip(i as int),
                ),
            decreases n - i,
        {
            let c = t[i];
            let res = self.accept(c, options.duplicate());
            match res {
                Err(e) => {
                    proof {
                        assert(text@.skip(i as int)[0] == text@[i as int]);
                        assert(accept_err_opts(e, options, text@[i as int]));
                    }
                    self.restore(backup);
                    return Err(e);
                },
                Ok(_) => {
                    proof {
                        assert(text@.skip(i as int)[0] == text@[i as int]);
                        assert(text@.skip(i as int).drop_first() =~= text@.skip(i as int + 1));
                    }
                    i = i + 1;
                },
            }
        }
        proof {
            assert(text@.skip(n as int) =~= Seq::<char>::empty());
        }
        Ok(())
    }

    /// Tries to accept each character of `c` in turn, returning the one
    /// that matched; on failure the expectation sets of the alternatives
    /// are merged (or replaced by `name`, a collective description such as
    /// a digit class).
    #[verifier::loop_isolation(false)]
    pub fn accept_any(&mut self, c: &[char], options: Options, name: Option<Options>) -> (r:
        Result<char, Options>)
        requires
            old(self).wf(),
            c@.len() > 0,
        ensures
            final(self).wf(),
            final(self).same_input(*old(self)),
            final(self).at() >= old(self).at(),
            match r {
                Ok(ch) => sp_accept_one_of(final(self).src(), old(self).at(), c@) == TokC::HitC(
                    ch,
                    final(self).at(),
                ),
                Err(_) => sp_accept_one_of(final(self).src(), old(self).at(), c@) == TokC::MissC(
                    final(self).at(),
                ),
            },
            r matches Err(o) ==> {
                &&& o.msgs() == options.msgs()
                &&& o.src() == options.src()
                &&& o.last_pos() == options.last_pos()
                &&& options.wf() ==> o.wf()
                &&& match name {
                    Option::Some(nm) => forall|v: Seq<char>|
                        #[trigger] o.opts().contains(v) <==> options.opts().contains(v)
                            || nm.opts().contains(v),
                    Option::None => forall|v: Seq<char>|
                        #[trigger] o.opts().contains(v) <==> options.opts().contains(v) || (
                        exists|j: int| 0 <= j < c@.len() && v == seq![#[trigger] c@[j]]),
                }
            },
    {
        let ghost s = self.chars@;
        let ghost p0 = self.pos as nat;
        let ghost q = skip_ws(s, p0);
        let mut opts = options;
        let n: usize = c.len();
        let mut i: usize = 0;
        while i < n
            invariant
                i <= n,
                n == c@.len(),
                self.wf(),
                self.chars@ == s,
                self.source@ == old(self).source@,
                self.advanced == old(self).advanced,
                self.pos >= p0,
                q == skip_ws(s, p0),
                i > 0 ==> self.pos as nat == q,
                i == 0 ==> self.pos as nat == p0,
                forall|j: int| 0 <= j < i ==> !(q < s.len() && s[q as int] == c@[j]),
                opts.msgs() == options.msgs(),
                opts.src() == options.src(),
                opts.last_pos() == options.last_pos(),
                options.wf() ==> opts.wf(),
                name is Some ==> opts.opts() == options.opts(),
                name is None ==> forall|v: Seq<char>|
                    #[trigger] opts.opts().contains(v) <==> options.opts().contains(v) || (
                    exists|j: int| 0 <= j < i && v == seq![#[trigger] c@[j]]),
            decreases n - i,
        {
            let ghost pcur = self.pos as nat;
            let cand = c[i];
            let res = self.accept(cand, opts.duplicate());
            proof {
                lemma_skip_ws(s, p0);
                assert(skip_ws(s, pcur) == q);
            }
            match res {
                Ok(_) => {
                    proof {
                        assert(q < s.len() && s[q as int] == cand);
                        assert(c@.contains(s[q as int]));
                        assert(sp_accept_one_of(s, p0, c@) == TokC::HitC(cand, self.pos as nat));
                    }
                    return Ok(cand);
                },
                Err(o) => {
                    let ghost prev = opts;
                    if name.is_none() {
                        opts = opts.merge(o);
                    }
                    i = i + 1;
                    proof {
                        if name is None {
                            assert forall|v: Seq<char>|
                                #[trigger] opts.opts().contains(v) implies
                                options.opts().contains(v) || (exists|j: int|
                                0 <= j < i && v == seq![#[trigger] c@[j]]) by {
                                if !prev.opts().contains(v) {
                                    assert(o.opts().contains(v));
                                    assert(v == seq![c@[i - 1]]);
                                } else {
                                    if !options.opts().contains(v) {
                                        let j = choose|j: int|
                                            0 <= j < i - 1 && v == seq![#[trigger] c@[j]];
                                        assert(v == seq![c@[j]]);
                                    }
                                }
                            }
                            assert forall|v: Seq<char>|
                                options.opts().contains(v) || (exists|j: int|
                                0 <= j < i && v == seq![#[trigger] c@[j]]) implies
                                #[trigger] opts.opts().contains(v) by {
                                if options.opts().contains(v) {
                                    assert(prev.opts().contains(v));
                                } else {
                                    let j = choose|j: int|
                                        0 <= j < i && v == seq![#[trigger] c@[j]];
                                    if j < i - 1 {
                                        assert(prev.opts().contains(v));
                                    } else {
                                        assert(v == seq![c@[i - 1]]);
                                        assert(o.opts().contains(v)) by {
                                            if !prev.opts().contains(seq![c@[i - 1]]) {
                                                assert(o.opts() == prev.opts().push(
                                                    seq![c@[i - 1]],
                                                ));
                                                assert(o.opts().last() == v);
                                            }
                                        }
                                    }
                                }
                            }
                        }
                    }
                },
            }
        }
        proof {
            if q < s.len() && c@.contains(s[q as int]) {
                let j = choose|j: int| 0 <= j < c@.len() && #[trigger] c@[j] == s[q as int];
                assert(false);
            }
        }
        let r = match name {
            Option::Some(nm) => opts.merge(nm),
            Option::None => opts,
        };
        Err(r)
    }

    /// A numeric literal: one or more digit-or-dot characters, kept as the
    /// text they were written as.  Whitespace may separate the characters,
    /// as every acceptance skips it.
    #[verifier::loop_isolation(false)]
    pub fn parse_number(&mut self, options: Options) -> (r: Result<Ast, Options>)
        requires
            old(self).wf(),
        ensures
            final(self).wf(),
            final(self).same_input(*old(self)),
            final(self).at() >= old(self).at(),
            pres_match(sp_number(old(self).src(), old(self).at()), r, final(self).at()),
            r is Ok ==> final(self).at() > old(self).at(),
            r matches Err(o) ==> {
                &&& forall|v: Seq<char>|
                    #[trigger] o.opts().contains(v) <==> options.opts().contains(v) || v == "0-9"@
                        || v == seq!['(']
                &&& o.msgs() == options.msgs().push("tried to parse a number"@)
                &&& o.last_pos() == options.last_pos()
                &&& o.src() == options.src()
                &&& options.wf() ==> o.wf()
            },
    {
        let ghost s = self.chars@;
        let ghost p0 = self.pos as nat;
        let digits: Vec<char> = vec!['1', '2', '3', '4', '5', '6', '7', '8', '9', '0', '.'];
        proof {
            assert(digits@ =~= digit_list());
        }
        let digits_name = Options::new(String::new()).add_str("0-9");
        proof {
            assert(digits_name.opts() == Seq::<Seq<char>>::empty().push("0-9"@));
            assert(digits_name.opts().contains("0-9"@)) by {
                assert(digits_name.opts().last() == "0-9"@);
            }
            assert(forall|v: Seq<char>|
                #[trigger] digits_name.opts().contains(v) ==> v == "0-9"@);
        }
        let first = match self.accept_any(
            digits.as_slice(),
            options.duplicate(),
            Option::Some(digits_name.duplicate()),
        ) {
            Ok(i) => i,
            Err(e) => {
                let merged = options.merge(e);
                let ghost withparen = merged.opts();
                let added = merged.add('(');
                proof {
                    assert forall|v: Seq<char>| #[trigger] added.opts().contains(v) implies
                        withparen.contains(v) || v == seq!['('] by {
                        if !withparen.contains(v) {
                            assert(added.opts() == withparen.push(seq!['(']));
                            assert(added.opts().last() == seq!['(']);
                            let ix = choose|ix: int|
                                0 <= ix < added.opts().len() && added.opts()[ix] == v;
                            if ix < withparen.len() {
                                assert(withparen[ix] == v);
                            }
                        }
                    }
                    assert forall|v: Seq<char>| withparen.contains(v) || v == seq!['('] implies
                        #[trigger] added.opts().contains(v) by {
                        if withparen.contains(v) {
                            let ix = choose|ix: int|
                                0 <= ix < withparen.len() && withparen[ix] == v;
                            if added.opts() != withparen {
                                assert(added.opts()[ix] == v);
                            }
                        } else {
                            if withparen.contains(seq!['(']) {
                            } else {
                                assert(added.opts().last() == seq!['(']);
                            }
                        }
                    }
                }
                return Err(added.message("tried to parse a number"));
            },
        };
        let ghost p1 = self.pos as nat;
        proof {
            lemma_skip_ws(s, p0);
            assert(stepn(p1, (p0 + 1) as nat, s.len()) == p1);
        }
        let mut number: Vec<char> = Vec::new();
        number.push(first);
        proof {
            assert(number@ =~= seq![first]);
        }
        let mut done = false;
        while !done
            invariant
                self.wf(),
                self.chars@ == s,
                self.source@ == old(self).source@,
                self.advanced == old(self).advanced,
                self.pos >= p1,
                !done ==> sp_digits(s, p1, seq![first]) == sp_digits(
                    s,
                    self.pos as nat,
                    number@,
                ),
                done ==> sp_digits(s, p1, seq![first]) == (number@, self.pos as nat),
            decreases (s.len() - self.pos) + if done { 0int } else { 1int },
        {
            let ghost pcur = self.pos as nat;
            let backup = self.backup();
            match self.accept_any(
                digits.as_slice(),
                options.duplicate(),
                Option::Some(digits_name.duplicate()),
            ) {
                Ok(d) => {
                    proof {
                        lemma_skip_ws(s, pcur);
                        assert(stepn(self.pos as nat, (pcur + 1) as nat, s.len())
                            == self.pos as nat);
                    }
                    number.push(d);
                },
                Err(_) => {
                    self.restore(backup);
                    done = true;
                },
            }
        }
        let string: String = chars_to_string(&number);
        Ok(Ast::Const(string))
    }

    /// A die-size literal: `%` meaning one hundred, or a numeric literal.
    pub fn parse_number_or_percent(&mut self, options: Options) -> (r: Result<Ast, Options>)
        requires
            old(self).wf(),
        ensures
            final(self).wf(),
            final(self).same_input(*old(self)),
            final(self).at() >= old(self).at(),
            pres_match(
                sp_number_or_percent(old(self).src(), old(self).at()),
                r,
                final(self).at(),
            ),
            r is Ok ==> final(self).at() > old(self).at(),
            r matches Err(o) ==> {
                &&& forall|v: Seq<char>|
                    #[trigger] o.opts().contains(v) <==> options.opts().contains(v) || v
                        == seq!['%'] || v == "0-9"@ || v == seq!['(']
                &&& o.msgs() == options.msgs().push("tried to parse a number"@)
                &&& o.last_pos() == options.last_pos()
                &&& o.src() == options.src()
                &&& options.wf() ==> o.wf()
            },
    {
        match self.accept('%', options.duplicate()) {
            Ok(_) => {
                proof {
                    lemma_skip_ws(old(self).src(), old(self).at());
                    reveal_strlit("100");
                    assert("100"@ =~= seq!['1', '0', '0']);
                }
                Ok(Ast::Const("100".to_owned()))
            },
            Err(_) => {
                let with_pct = options.add('%');
                proof {
                    assert forall|v: Seq<char>| #[trigger] with_pct.opts().contains(v) implies
                        options.opts().contains(v) || v == seq!['%'] by {
                        if !options.opts().contains(v) {
                            assert(with_pct.opts() == options.opts().push(seq!['%']));
                            let ix = choose|ix: int|
                                0 <= ix < with_pct.opts().len() && with_pct.opts()[ix] == v;
                            if ix < options.opts().len() {
                                assert(options.opts()[ix] == v);
                            }
                        }
                    }
                    assert forall|v: Seq<char>|
                        options.opts().contains(v) || v == seq!['%'] implies
                        #[trigger] with_pct.opts().contains(v) by {
                        if options.opts().contains(v) {
                            let ix = choose|ix: int|
                                0 <= ix < options.opts().len() && options.opts()[ix] == v;
                            if with_pct.opts() != options.opts() {
                                assert(with_pct.opts()[ix] == v);
                            }
                        } else {
                            if !options.opts().contains(seq!['%']) {
                                assert(with_pct.opts().last() == seq!['%']);
                            }
                        }
                    }
                }
                self.parse_number(with_pct)
            },
        }
    }

    /// A factor: a power with an optional leading unary minus.
    pub fn parse_factor(&mut self, options: Options) -> (r: Result<Ast, Options>)
        requires
            old(self).wf(),
        ensures
            final(self).wf(),
            final(self).same_input(*old(self)),
            final(self).at() >= old(self).at(),
            pres_match(
                sp_factor(old(self).src(), old(self).at(), old(self).adv()),
                r,
                final(self).at(),
            ),
            r is Ok ==> final(self).at() > old(self).at(),
            r matches Err(o) ==> err_grows(options, o),
            r matches Err(o) ==> ((!old(self).adv() && crate::parse_spec::plain_atom_fail(
                old(self).src(),
                old(self).at(),
            )) ==> merged_atom_opts(o, options)),
        decreases old(self).src().len() - old(self).at(), 11int,
    {
        let ghost s = self.chars@;
        let ghost p0 = self.pos as nat;
        let backup = self.backup();
        match self.accept('-', options.duplicate()) {
            Ok(_) => {
                proof {
                    lemma_skip_ws(s, p0);
                    assert(sp_accept(s, p0, '-') is Hit);
                }
                match self.parse_power(options) {
                    Ok(i) => Ok(Ast::Minus(Box::new(i))),
                    Err(e) => Err(e),
                }
            },
            Err(_) => {
                self.restore(backup);
                self.parse_power(options)
            },
        }
    }

    /// A power: an atom, optionally raised by `**` to a factor (so `**` is
    /// right-associative).
    #[verifier::rlimit(100)]
    #[verifier::spinoff_prover]
    pub fn parse_power(&mut self, options: Options) -> (r: Result<Ast, Options>)
        requires
            old(self).wf(),
        ensures
            final(self).wf(),
            final(self).same_input(*old(self)),
            final(self).at() >= old(self).at(),
            pres_match(
                sp_power(old(self).src(), old(self).at(), old(self).adv()),
                r,
                final(self).at(),
            ),
            r is Ok ==> final(self).at() > old(self).at(),
            r matches Err(o) ==> err_grows(options, o),
            r matches Err(o) ==> ((!old(self).adv() && crate::parse_spec::plain_atom_fail(
                old(self).src(),
                old(self).at(),
            )) ==> merged_atom_opts(o, options)),
        decreases old(self).src().len() - old(self).at(), 9int,
    {
        let ghost s = self.chars@;
        let ghost p0 = self.pos as nat;
        let ghost opts0 = options;
        match self.parse_atom(options.duplicate()) {
            Err(e) => {
                proof {
                    assert(err_grows(opts0, e));
                }
                Err(e)
            },
            Ok(a) => {
                let ghost p1 = self.pos as nat;
                proof {
                    assert(sp_atom(s, p0, self.advanced) == PRes::Succ(a@, p1));
                    assert(p0 < s.len());
                    assert(sp_power(s, p0, self.advanced) == sp_power_body(s, p0, self.advanced));
                    assert(stepn(p1, p0, s.len()) == p1);
                }
                self.parse_power_tail(options, a, Ghost(p0))
            },
        }
    }

    /// The optional `**` continuation of a power: the exponent is a
    /// factor, so the operator associates to the right.
    #[verifier::rlimit(100)]
    #[verifier::spinoff_prover]
    fn parse_power_tail(&mut self, options: Options, a: Ast, Ghost(p0): Ghost<nat>) -> (r: Result<
        Ast,
        Options,
    >)
        requires
            old(self).wf(),
            p0 < old(self).at(),
        ensures
            final(self).wf(),
            final(self).same_input(*old(self)),
            final(self).at() >= old(self).at(),
            pres_match(
                (match sp_accept_str(old(self).src(), old(self).at(), seq!['*', '*']) {
                    Tok::Hit(p2) => match sp_factor(
                        old(self).src(),
                        stepn(p2, (p0 + 1) as nat, old(self).src().len()),
                        old(self).adv(),
                    ) {
                        PRes::Fail(q) => PRes::Fail(q),
                        PRes::Succ(b, p3) => PRes::Succ(
                            AstS::Power(Box::new(a@), Box::new(b)),
                            p3,
                        ),
                    },
                    Tok::Miss(q) => PRes::Succ(a@, q),
                }),
                r,
                final(self).at(),
            ),
            r is Ok ==> final(self).at() >= old(self).at(),
            r matches Err(o) ==> err_grows(options, o),
        decreases old(self).src().len() - old(self).at(), 8int,
    {
        let ghost s = self.chars@;
        let ghost p1 = self.pos as nat;
        proof {
            reveal_strlit("**");
            assert("**"@ =~= seq!['*', '*']);
        }
        match self.accept_string("**", options.duplicate()) {
            Ok(_) => {
                let ghost p2 = self.pos as nat;
                proof {
                    crate::parse_spec::lemma_accept_str_hit(s, p1, p1, "**"@);
                    assert(p2 >= p1 + 2 && p2 <= s.len());
                    assert(stepn(p2, (p0 + 1) as nat, s.len()) == p2);
                }
                match self.parse_factor(options) {
                    Ok(b) => {
                        let ghost av = a@;
                        let ghost bv = b@;
                        let node = Ast::Power(Box::new(a), Box::new(b));
                        proof {
                            assert(node@ == AstS::Power(Box::new(av), Box::new(bv)));
                        }
                        Ok(node)
                    },
                    Err(e) => Err(e),
                }
            },
            Err(_) => Ok(a),
        }
    }

    /// An atom: a dice roll, failing that a parenthesized sum, failing that
    /// a bare numeric literal — in that order, with the cursor restored
    /// after each failed attempt.
    pub fn parse_atom(&mut self, options: Options) -> (r: Result<Ast, Options>)
        requires
            old(self).wf(),
        ensures
            final(self).wf(),
            final(self).same_input(*old(self)),
            final(self).at() >= old(self).at(),
            pres_match(
                sp_atom(old(self).src(), old(self).at(), old(self).adv()),
                r,
                final(self).at(),
            ),
            r is Ok ==> final(self).at() > old(self).at(),
            ({
                let src = old(self).src();
                let p0 = old(self).at();
                let adv = old(self).adv();
                (sp_dice(src, p0, adv) is Fail && (sp_accept(src, p0, '(')
                    matches Tok::Hit(p1) && (sp_sum(src, stepn(p1, (p0 + 1) as nat, src.len()), adv)
                    matches PRes::Succ(inner, p2) && sp_accept(
                    src,
                    stepn(p2, (p0 + 1) as nat, src.len()),
                    ')',
                ) is Miss))) ==> (r matches Err(o) && o.msgs().len() >= 1 && o.msgs().last()
                    == "missing closing parenthesis"@)
            }),
            r matches Err(o) ==> err_grows(options, o),
            r matches Err(o) ==> ((!old(self).adv() && sp_accept(
                old(self).src(),
                old(self).at(),
                '(',
            ) is Miss) ==> merged_atom_opts(o, options)),
        decreases old(self).src().len() - old(self).at(), 7int,
    {
        let ghost s = self.chars@;
        let ghost p0 = self.pos as nat;
        let ghost opts0 = options;
        let backup = self.backup();
        match self.parse_dice(options) {
            Ok(i) => Ok(i),
            Err(o) => {
                self.restore(backup);
                let backup2 = self.backup();
                match self.accept('(', o.duplicate()) {
                    Ok(_) => {
                        proof {
                            lemma_skip_ws(s, p0);
                        }
                        let sm = match self.parse_sum(o.duplicate()) {
                            Ok(i) => i,
                            Err(e) => {
                                proof {
                                    assert forall|v: Seq<char>|
                                        opts0.opts().contains(v) implies
                                        #[trigger] e.opts().contains(v) by {
                                        assert(o.opts().contains(v));
                                    }
                                }
                                return Err(e);
                            },
                        };
                        match self.accept(')', o) {
                            Ok(_) => Ok(sm),
                            Err(e) => {
                                proof {
                                    if !o.opts().contains(seq![')']) {
                                        crate::options::lemma_opts_push_keeps(
                                            o.opts(),
                                            seq![')'],
                                        );
                                    }
                                    assert forall|v: Seq<char>|
                                        opts0.opts().contains(v) implies
                                        #[trigger] e.opts().contains(v) by {
                                        assert(o.opts().contains(v));
                                    }
                                }
                                Err(e.message("missing closing parenthesis"))
                            },
                        }
                    },
                    Err(_) => {
                        let o2 = o.add('(').message("tried to parse expression between parenthesis");
                        self.restore(backup2);
                        let ghost go2 = o2;
                        match self.parse_number(o2.message("tried to parse dice roll")) {
                            Ok(i) => Ok(i),
                            Err(e) => {
                                proof {
                                    assert forall|v: Seq<char>|
                                        o.opts().contains(v) implies
                                        #[trigger] go2.opts().contains(v) by {
                                        if !o.opts().contains(seq!['(']) {
                                            crate::options::lemma_opts_push_keeps(
                                                o.opts(),
                                                seq!['('],
                                            );
                                        }
                                    }
                                    assert forall|v: Seq<char>|
                                        opts0.opts().contains(v) implies
                                        #[trigger] e.opts().contains(v) by {
                                        assert(o.opts().contains(v));
                                        assert(go2.opts().contains(v));
                                    }
                                    if !self.advanced {
                                        assert(o.opts() == if opts0.opts().contains(seq!['d']) {
                                            opts0.opts()
                                        } else {
                                            opts0.opts().push(seq!['d'])
                                        });
                                        assert(o.opts().contains(seq!['d'])) by {
                                            if !opts0.opts().contains(seq!['d']) {
                                                assert(o.opts().last() == seq!['d']);
                                            }
                                        }
                                        assert(go2.opts().contains(seq!['d']));
                                        assert(go2.opts().contains(seq!['('])) by {
                                            if !o.opts().contains(seq!['(']) {
                                                assert(go2.opts().last() == seq!['(']);
                                            }
                                        }
                                        assert forall|v: Seq<char>|
                                            #[trigger] e.opts().contains(v) implies
                                            opts0.opts().contains(v) || v == seq!['d'] || v
                                                == seq!['('] || v == "0-9"@ by {
                                            if !(v == "0-9"@ || v == seq!['(']) {
                                                assert(go2.opts().contains(v));
                                                if !o.opts().contains(v) {
                                                    let ix = choose|ix: int|
                                                        0 <= ix < go2.opts().len()
                                                            && go2.opts()[ix] == v;
                                                    if ix < o.opts().len() {
                                                        assert(o.opts()[ix] == v);
                                                    }
                                                    assert(v == seq!['(']);
                                                } else {
                                                    if !opts0.opts().contains(v) {
                                                        let ix = choose|ix: int|
                                                            0 <= ix < o.opts().len()
                                                                && o.opts()[ix] == v;
                                                        if ix < opts0.opts().len() {
                                                            assert(opts0.opts()[ix] == v);
                                                        }
                                                        assert(v == seq!['d']);
                                                    }
                                                }
                                            }
                                        }
                                        assert forall|v: Seq<char>|
                                            opts0.opts().contains(v) || v == seq!['d'] || v
                                                == seq!['('] || v == "0-9"@ implies
                                            #[trigger] e.opts().contains(v) by {
                                            if v == "0-9"@ || v == seq!['('] {
                                            } else if v == seq!['d'] {
                                                assert(go2.opts().contains(v));
                                            } else {
                                                assert(o.opts().contains(v));
                                                assert(go2.opts().contains(v));
                                            }
                                        }
                                        assert(merged_atom_opts(e, opts0));
                                    }
                                }
                                Err(e)
                            },
                        }
                    },
                }
            },
        }
    }

    /// A dice roll: an optional count, the `d`, an optional die size (a
    /// literal or `%`), and an optional keep/drop filter modifier.  In
    /// advanced mode the count and the size may be parenthesized sums.  The
    /// node's position key is the position of the `d` itself.
    #[verifier::rlimit(100)]
    #[verifier::spinoff_prover]
    pub fn parse_dice(&mut self, options: Options) -> (r: Result<Ast, Options>)
        requires
            old(self).wf(),
        ensures
            final(self).wf(),
            final(self).same_input(*old(self)),
            final(self).at() >= old(self).at(),
            pres_match(
                sp_dice(old(self).src(), old(self).at(), old(self).adv()),
                r,
                final(self).at(),
            ),
            r is Ok ==> final(self).at() > old(self).at(),
            r matches Err(o) ==> err_grows(options, o),
            r matches Err(o) ==> (!old(self).adv() ==> {
                &&& o.opts() == if options.opts().contains(seq!['d']) {
                    options.opts()
                } else {
                    options.opts().push(seq!['d'])
                }
                &&& o.msgs() == options.msgs()
                &&& o.last_pos() >= options.last_pos()
            }),
        decreases old(self).src().len() - old(self).at(), 5int,
    {
        let mut options = options;
        let ghost opts0 = options;
        let ghost s = self.chars@;
        let ghost p0 = self.pos as nat;
        let backup = self.backup();
        let mut go_paren = false;
        if self.advanced {
            match self.accept('(', options.duplicate()) {
                Ok(_) => {
                    go_paren = true;
                },
                Err(_) => {},
            }
        }
        let rolls: Option<Box<Ast>>;
        if go_paren {
            proof {
                lemma_skip_ws(s, p0);
            }
            let sm = match self.parse_sum(options.duplicate()) {
                Ok(i) => i,
                Err(e) => {
                    proof {
                        assert forall|v: Seq<char>|
                            opts0.opts().contains(v) implies #[trigger] e.opts().contains(v) by {
                            assert(options.opts().contains(v));
                        }
                    }
                    return Err(e);
                },
            };
            match self.accept(')', options.duplicate()) {
                Ok(_) => {},
                Err(e) => {
                    proof {
                        if !options.opts().contains(seq![')']) {
                            crate::options::lemma_opts_push_keeps(options.opts(), seq![')']);
                        }
                        assert forall|v: Seq<char>|
                            opts0.opts().contains(v) implies #[trigger] e.opts().contains(v) by {
                            assert(options.opts().contains(v));
                        }
                    }
                    return Err(e.message("missing closing parenthesis"));
                },
            }
            rolls = Option::Some(Box::new(sm));
        } else {
            if self.advanced {
                let ghost oprev = options;
                options = options.add('(').message("tried to parse expression between parenthesis");
                proof {
                    if !oprev.opts().contains(seq!['(']) {
                        crate::options::lemma_opts_push_keeps(oprev.opts(), seq!['(']);
                    }
                    assert forall|v: Seq<char>|
                        opts0.opts().contains(v) implies #[trigger] options.opts().contains(
                        v,
                    ) by {
                        assert(oprev.opts().contains(v));
                    }
                }
            }
            self.restore(backup);
            rolls = match self.parse_number(options.duplicate()) {
                Ok(i) => Option::Some(Box::new(i)),
                Err(_) => Option::None,
            };
        }
        let ghost pac = self.pos as nat;
        match self.accept('d', options.duplicate()) {
            Err(e) => {
                proof {
                    if !options.opts().contains(seq!['d']) {
                        crate::options::lemma_opts_push_keeps(options.opts(), seq!['d']);
                    }
                    assert forall|v: Seq<char>|
                        opts0.opts().contains(v) implies #[trigger] e.opts().contains(v) by {
                        assert(options.opts().contains(v));
                    }
                }
                return Err(e);
            },
            Ok(_) => {},
        }
        proof {
            lemma_skip_ws(s, pac);
        }
        let dpos: u64 = (self.pos - 1) as u64;
        let ghost pd = self.pos as nat;
        let backup2 = self.backup();
        let mut go_paren2 = false;
        if self.advanced {
            match self.accept('(', options.duplicate()) {
                Ok(_) => {
                    go_paren2 = true;
                },
                Err(_) => {},
            }
        }
        let sides: Option<Box<Ast>>;
        if go_paren2 {
            proof {
                lemma_skip_ws(s, pd);
            }
            let sm = match self.parse_sum(options.duplicate()) {
                Ok(i) => i,
                Err(e) => {
                    proof {
                        assert forall|v: Seq<char>|
                            opts0.opts().contains(v) implies #[trigger] e.opts().contains(v) by {
                            assert(options.opts().contains(v));
                        }
                    }
                    return Err(e);
                },
            };
            match self.accept(')', options.duplicate()) {
                Ok(_) => {},
                Err(e) => {
                    proof {
                        if !options.opts().contains(seq![')']) {
                            crate::options::lemma_opts_push_keeps(options.opts(), seq![')']);
                        }
                        assert forall|v: Seq<char>|
                            opts0.opts().contains(v) implies #[trigger] e.opts().contains(v) by {
                            assert(options.opts().contains(v));
                        }
                    }
                    return Err(e.message("missing closing parenthesis"));
                },
            }
            sides = Option::Some(Box::new(sm));
        } else {
            if self.advanced {
                let ghost oprev = options;
                options = options.add('(').message("tried to parse expression between parenthesis");
                proof {
                    if !oprev.opts().contains(seq!['(']) {
                        crate::options::lemma_opts_push_keeps(oprev.opts(), seq!['(']);
                    }
                    assert forall|v: Seq<char>|
                        opts0.opts().contains(v) implies #[trigger] options.opts().contains(
                        v,
                    ) by {
                        assert(oprev.opts().contains(v));
                    }
                }
            }
            self.restore(backup2);
            sides = match self.parse_number_or_percent(options.duplicate()) {
                Ok(i) => Option::Some(Box::new(i)),
                Err(_) => Option::None,
            };
        }
        let node = self.parse_dice_fm(options, rolls, sides, dpos);
        Ok(node)
    }

    /// The optional keep/drop filter modifier after a dice roll, and the
    /// finished dice node.  The spellings are tried in order: `kh`, `h`,
    /// `dl`, `l`, `dh`, `kl`; the numeric argument defaults to one when
    /// none parses.
    #[verifier::rlimit(100)]
    #[verifier::spinoff_prover]
    fn parse_dice_fm(
        &mut self,
        options: Options,
        rolls: Option<Box<Ast>>,
        sides: Option<Box<Ast>>,
        dpos: u64,
    ) -> (r: Ast)
        requires
            old(self).wf(),
        ensures
            final(self).wf(),
            final(self).same_input(*old(self)),
            final(self).at() >= old(self).at(),
            sp_dice_fm(old(self).src(), old(self).at(), obox_view(rolls), obox_view(sides), dpos)
                == PRes::Succ(r@, final(self).at()),
    {
        let ghost s = self.chars@;
        let ghost p0 = self.pos as nat;
        proof {
            reveal_strlit("kh");
            reveal_strlit("dl");
            reveal_strlit("dh");
            reveal_strlit("kl");
            reveal_strlit("1");
            assert("kh"@ =~= seq!['k', 'h']);
            assert("dl"@ =~= seq!['d', 'l']);
            assert("dh"@ =~= seq!['d', 'h']);
            assert("kl"@ =~= seq!['k', 'l']);
            assert("1"@ =~= seq!['1']);
        }
        let kh1 = match self.accept_string("kh", options.duplicate()) {
            Ok(_) => true,
            Err(_) => false,
        };
        let kh = if kh1 {
            true
        } else {
            match self.accept('h', options.duplicate()) {
                Ok(_) => true,
                Err(_) => false,
            }
        };
        if kh {
            let n = match self.parse_number(options.duplicate()) {
                Ok(i) => i,
                Err(_) => Ast::Const("1".to_owned()),
            };
            let fmx = FilterModifier::KeepHighest(Box::new(n));
            proof {
                assert(crate::ast::fmb_view(fmx) == FilterModifier::KeepHighest(Box::new(n@)));
            }
            return Ast::Dice(rolls, sides, fmx, dpos);
        }
        let dl1 = match self.accept_string("dl", options.duplicate()) {
            Ok(_) => true,
            Err(_) => false,
        };
        let dl = if dl1 {
            true
        } else {
            match self.accept('l', options.duplicate()) {
                Ok(_) => true,
                Err(_) => false,
            }
        };
        if dl {
            let n = match self.parse_number(options.duplicate()) {
                Ok(i) => i,
                Err(_) => Ast::Const("1".to_owned()),
            };
            let fmx = FilterModifier::DropLowest(Box::new(n));
            proof {
                assert(crate::ast::fmb_view(fmx) == FilterModifier::DropLowest(Box::new(n@)));
            }
            return Ast::Dice(rolls, sides, fmx, dpos);
        }
        let dh = match self.accept_string("dh", options.duplicate()) {
            Ok(_) => true,
            Err(_) => false,
        };
        if dh {
            let n = match self.parse_number(options.duplicate()) {
                Ok(i) => i,
                Err(_) => Ast::Const("1".to_owned()),
            };
            let fmx = FilterModifier::DropHighest(Box::new(n));
            proof {
                assert(crate::ast::fmb_view(fmx) == FilterModifier::DropHighest(Box::new(n@)));
            }
            return Ast::Dice(rolls, sides, fmx, dpos);
        }
        let kl = match self.accept_string("kl", options.duplicate()) {
            Ok(_) => true,
            Err(_) => false,
        };
        if kl {
            let n = match self.parse_number(options.duplicate()) {
                Ok(i) => i,
                Err(_) => Ast::Const("1".to_owned()),
            };
            let fmx = FilterModifier::KeepLowest(Box::new(n));
            proof {
                assert(crate::ast::fmb_view(fmx) == FilterModifier::KeepLowest(Box::new(n@)));
            }
            return Ast::Dice(rolls, sides, fmx, dpos);
        }
        let fmx: FilterModifier<Box<Ast>> = FilterModifier::Unfiltered;
        proof {
            assert(crate::ast::fmb_view(fmx) == FilterModifier::<Box<AstS>>::Unfiltered);
        }
        Ast::Dice(rolls, sides, fmx, dpos)
    }

    /// A term: a factor followed by `*`, `/`, `//` or `mod` continuations.
    /// The double slash is tried before a single `/` is committed.
    #[verifier::loop_isolation(false)]
    pub fn parse_term(&mut self, options: Options) -> (r: Result<Ast, Options>)
        requires
            old(self).wf(),
        ensures
            final(self).wf(),
            final(self).same_input(*old(self)),
            final(self).at() >= old(self).at(),
            pres_match(
                sp_term(old(self).src(), old(self).at(), old(self).adv()),
                r,
                final(self).at(),
            ),
            r is Ok ==> final(self).at() > old(self).at(),
            r matches Err(o) ==> err_grows(options, o),
            r matches Err(o) ==> ((!old(self).adv() && crate::parse_spec::plain_atom_fail(
                old(self).src(),
                old(self).at(),
            )) ==> merged_atom_opts(o, options)),
        decreases old(self).src().len() - old(self).at(), 17int,
    {
        let ghost s = self.chars@;
        let ghost p0 = self.pos as nat;
        let ghost adv = self.advanced;
        let mut options = options;
        let ghost opts0 = options;
        let mut res = match self.parse_factor(options.duplicate()) {
            Ok(i) => i,
            Err(e) => {
                proof {
                    assert forall|v: Seq<char>|
                        opts0.opts().contains(v) implies #[trigger] e.opts().contains(v) by {
                        assert(options.opts().contains(v));
                    }
                }
                return Err(e);
            },
        };
        proof {
            assert(sp_factor(s, p0, adv) is Succ);
        }
        proof {
            assert(stepn(self.pos as nat, p0, s.len()) == self.pos as nat);
        }
        let md: Vec<char> = vec!['*', '/'];
        proof {
            assert(md@ =~= seq!['*', '/']);
            reveal_strlit("mod");
            assert("mod"@ =~= seq!['m', 'o', 'd']);
        }
        let mut done = false;
        while !done
            invariant
                self.wf(),
                self.chars@ == s,
                self.source@ == old(self).source@,
                self.advanced == adv,
                self.pos > p0,
                md@ == seq!['*', '/'],
                !done ==> sp_term(s, p0, adv) == sp_term_rest(s, self.pos as nat, adv, res@),
                done ==> sp_term(s, p0, adv) == PRes::Succ(res@, self.pos as nat),
                crate::options::opts_monotone(opts0, options),
                options.src() == opts0.src(),
                opts0.wf() ==> options.wf(),
            decreases (s.len() - self.pos) + if done {
                0int
            } else {
                1int
            },
        {
            let ghost pcur = self.pos as nat;
            let mut op: char = ' ';
            let mut have = false;
            match self.accept_any(md.as_slice(), options.duplicate(), Option::None) {
                Ok(i) => {
                    op = i;
                    have = true;
                },
                Err(_) => {
                    match self.accept_string("mod", options.duplicate()) {
                        Ok(_) => {
                            op = '%';
                            have = true;
                        },
                        Err(_) => {},
                    }
                },
            }
            if !have {
                let ghost oprev = options;
                options = options.add_str("mod");
                proof {
                    if !oprev.opts().contains("mod"@) {
                        crate::options::lemma_opts_push_keeps(oprev.opts(), "mod"@);
                    }
                    assert forall|v: Seq<char>|
                        opts0.opts().contains(v) implies #[trigger] options.opts().contains(
                        v,
                    ) by {
                        assert(oprev.opts().contains(v));
                    }
                }
                let ghost oprev2 = options;
                options = options.add_str("//");
                proof {
                    if !oprev2.opts().contains("//"@) {
                        crate::options::lemma_opts_push_keeps(oprev2.opts(), "//"@);
                    }
                    assert forall|v: Seq<char>|
                        opts0.opts().contains(v) implies #[trigger] options.opts().contains(
                        v,
                    ) by {
                        assert(oprev2.opts().contains(v));
                    }
                }
                done = true;
            } else {
                let ghost ptail = self.pos as nat;
                proof {
                    lemma_skip_ws(s, pcur);
                    crate::parse_spec::lemma_accept_str_hit(s, skip_ws(s, pcur), skip_ws(s, pcur), "mod"@);
                    assert(sp_term_rest(s, pcur, adv, res@) == sp_term_tail(s, ptail, adv, res@, op));
                }
                let mut slashed = false;
                if op == '/' {
                    match self.accept('/', options.duplicate()) {
                        Ok(_) => {
                            op = 'i';
                            slashed = true;
                        },
                        Err(_) => {},
                    }
                }
                if !slashed {
                    let ghost oprev = options;
                    options = options.add('/');
                    proof {
                        if !oprev.opts().contains(seq!['/']) {
                            crate::options::lemma_opts_push_keeps(oprev.opts(), seq!['/']);
                        }
                        assert forall|v: Seq<char>|
                            opts0.opts().contains(v) implies #[trigger] options.opts().contains(
                            v,
                        ) by {
                            assert(oprev.opts().contains(v));
                        }
                    }
                }
                proof {
                    lemma_skip_ws(s, ptail);
                }
                let ghost pright = self.pos as nat;
                let right = match self.parse_factor(options.duplicate()) {
                    Ok(i) => i,
                    Err(e) => {
                        proof {
                            assert forall|v: Seq<char>|
                                opts0.opts().contains(v) implies #[trigger] e.opts().contains(
                                v,
                            ) by {
                                assert(options.opts().contains(v));
                            }
                            if !adv && crate::parse_spec::plain_atom_fail(s, p0) {
                                crate::parse_spec::lemma_plain_atom_fail(s, p0);
                            }
                        }
                        return Err(e);
                    },
                };
                res = match op {
                    '*' => Ast::Mul(Box::new(res), Box::new(right)),
                    '/' => Ast::Div(Box::new(res), Box::new(right)),
                    'i' => Ast::IDiv(Box::new(res), Box::new(right)),
                    _ => Ast::Mod(Box::new(res), Box::new(right)),
                };
            }
        }
        Ok(res)
    }

    /// A sum: a term followed by `+` or `-` continuations.  The operators
    /// associate to the left.
    #[verifier::loop_isolation(false)]
    pub fn parse_sum(&mut self, options: Options) -> (r: Result<Ast, Options>)
        requires
            old(self).wf(),
        ensures
            final(self).wf(),
            final(self).same_input(*old(self)),
            final(self).at() >= old(self).at(),
            pres_match(
                sp_sum(old(self).src(), old(self).at(), old(self).adv()),
                r,
                final(self).at(),
            ),
            r is Ok ==> final(self).at() > old(self).at(),
            r matches Err(o) ==> err_grows(options, o),
            r matches Err(o) ==> ((!old(self).adv() && crate::parse_spec::plain_atom_fail(
                old(self).src(),
                old(self).at(),
            )) ==> merged_atom_opts(o, options)),
        decreases old(self).src().len() - old(self).at(), 21int,
    {
        let ghost s = self.chars@;
        let ghost p0 = self.pos as nat;
        let ghost adv = self.advanced;
        let mut res = match self.parse_term(options.duplicate()) {
            Ok(i) => i,
            Err(e) => {
                proof {
                    assert forall|v: Seq<char>|
                        options.opts().contains(v) implies #[trigger] e.opts().contains(v) by {}
                }
                return Err(e);
            },
        };
        proof {
            assert(sp_term(s, p0, adv) is Succ);
        }
        proof {
            assert(stepn(self.pos as nat, p0, s.len()) == self.pos as nat);
        }
        let pm: Vec<char> = vec!['+', '-'];
        proof {
            assert(pm@ =~= seq!['+', '-']);
        }
        let mut done = false;
        while !done
            invariant
                self.wf(),
                self.chars@ == s,
                self.source@ == old(self).source@,
                self.advanced == adv,
                self.pos > p0,
                pm@ == seq!['+', '-'],
                !done ==> sp_sum(s, p0, adv) == sp_sum_rest(s, self.pos as nat, adv, res@),
                done ==> sp_sum(s, p0, adv) == PRes::Succ(res@, self.pos as nat),
            decreases (s.len() - self.pos) + if done {
                0int
            } else {
                1int
            },
        {
            let ghost pcur = self.pos as nat;
            match self.accept_any(pm.as_slice(), options.duplicate(), Option::None) {
                Err(_) => {
                    done = true;
                },
                Ok(op) => {
                    proof {
                        lemma_skip_ws(s, pcur);
                    }
                    let right = match self.parse_term(options.duplicate()) {
                        Ok(i) => i,
                        Err(e) => {
                            proof {
                                assert forall|v: Seq<char>|
                                    options.opts().contains(v) implies
                                    #[trigger] e.opts().contains(v) by {}
                                if !adv && crate::parse_spec::plain_atom_fail(s, p0) {
                                    crate::parse_spec::lemma_plain_atom_fail(s, p0);
                                }
                            }
                            return Err(e);
                        },
                    };
                    res = if op == '+' {
                        Ast::Add(Box::new(res), Box::new(right))
                    } else {
                        Ast::Sub(Box::new(res), Box::new(right))
                    };
                },
            }
        }
        Ok(res)
    }

    /// The whole expression grammar: a sum.
    pub fn parse_expr(&mut self, options: Options) -> (r: Result<Ast, Options>)
        requires
            old(self).wf(),
        ensures
            final(self).wf(),
            final(self).same_input(*old(self)),
            final(self).at() >= old(self).at(),
            pres_match(
                sp_sum(old(self).src(), old(self).at(), old(self).adv()),
                r,
                final(self).at(),
            ),
            r is Ok ==> final(self).at() > old(self).at(),
            r matches Err(o) ==> err_grows(options, o),
            r matches Err(o) ==> ((!old(self).adv() && crate::parse_spec::plain_atom_fail(
                old(self).src(),
                old(self).at(),
            )) ==> merged_atom_opts(o, options)),
    {
        self.parse_sum(options)
    }

    /// Parses the whole input: the expression grammar at the cursor, then
    /// the demand that everything was consumed — any trailing characters
    /// after a successful sub-parse are themselves a failure.
    pub fn parse(&mut self) -> (r: Result<Ast, Options>)
        requires
            old(self).wf(),
        ensures
            final(self).wf(),
            final(self).same_input(*old(self)),
            final(self).at() >= old(self).at(),
            match r {
                Ok(ast) => sp_sum(old(self).src(), old(self).at(), old(self).adv())
                    == PRes::Succ(ast@, final(self).at()) && final(self).at()
                    == old(self).src().len(),
                Err(_) => match sp_sum(old(self).src(), old(self).at(), old(self).adv()) {
                    PRes::Succ(_, q) => q < old(self).src().len(),
                    PRes::Fail(_) => true,
                },
            },
            old(self).at() == 0 ==> match r {
                Ok(ast) => sp_parse(old(self).src(), old(self).adv()) == Option::Some(ast@),
                Err(_) => sp_parse(old(self).src(), old(self).adv()) is None,
            },
            sp_sum(old(self).src(), old(self).at(), old(self).adv()) matches PRes::Succ(a, q)
                ==> (q < old(self).src().len() ==> (r matches Err(o) && o.opts()
                == Seq::<Seq<char>>::empty() && o.last_pos() == q as u64 && o.msgs()
                == Seq::<Seq<char>>::empty().push("unexpected trailing character(s)"@) && o.src()
                == old(self).src())),
            (old(self).at() == 0 && !old(self).adv() && crate::parse_spec::plain_atom_fail(
                old(self).src(),
                0,
            )) ==> (r matches Err(o) && o.src() == old(self).src() && o.wf() && (forall|
                v: Seq<char>,
            |
                #[trigger] o.opts().contains(v) <==> v == seq!['d'] || v == seq!['('] || v
                    == "0-9"@)),
    {
        let ghost s0 = self.chars@;
        let ghost at0 = self.pos as nat;
        let opts = Options::new(self.source.clone());
        let ghost gopts = opts;
        proof {
            if at0 == 0 && !self.advanced && crate::parse_spec::plain_atom_fail(s0, 0) {
                crate::parse_spec::lemma_plain_atom_fail(s0, 0);
            }
        }
        let result = match self.parse_expr(opts) {
            Ok(i) => i,
            Err(e) => {
                proof {
                    if at0 == 0 && !self.advanced && crate::parse_spec::plain_atom_fail(s0, 0) {
                        assert(merged_atom_opts(e, gopts));
                        assert(gopts.opts().len() == 0);
                        assert(forall|v: Seq<char>| !gopts.opts().contains(v));
                        assert(forall|v: Seq<char>|
                            #[trigger] e.opts().contains(v) <==> v == seq!['d'] || v == seq!['(']
                                || v == "0-9"@);
                    }
                }
                return Err(e);
            },
        };
        if self.pos < self.chars.len() {
            return Err(
                Options::new(self.source.clone()).pos(self.pos as u64).message(
                    "unexpected trailing character(s)",
                ),
            );
        }
        Ok(result)
    }
}

} // verus!
