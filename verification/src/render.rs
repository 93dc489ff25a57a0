//! Bounded Unicode layout for a deliberately small TeX math subset.
//!
//! The parser reads a formula left to right. Each step either renders a piece of the
//! formula and moves on, or refuses the whole formula (`None`), which the caller then
//! shows verbatim.

use vstd::prelude::*;

use crate::chars::{
    chars_to_string, is_ascii_alpha_char, is_control, is_control_char, is_white_space, is_whitespace,
    push_chars, push_str, skip_whitespace, str_chars, str_eq, is_ascii_alpha, sub_chars, trim, trim_end_index, trim_start,
    lemma_trim_start_suffix,
};
use crate::tables::{script_char, script_of, symbol, symbol_of, opt_str_view};
use crate::width::{display_width, text_width};

verus! {

/// Nesting deeper than this many groups or atoms is refused.
pub const MAX_DEPTH: usize = 32;

/// A rendered formula wider than this many columns is refused.
pub const MAX_WIDTH: usize = 256;

/// Where a parsing step leaves the parser: the rendered text (`None` where the input
/// falls outside the supported subset), the input left to read, and the nesting depth.
/// A refusal stops the parser where it found the problem, with the depth as it stood
/// there.
pub struct Step {
    pub out: Option<Seq<char>>,
    pub rest: Seq<char>,
    pub depth: nat,
}

/// A step that rendered `out`.
pub open spec fn done(out: Seq<char>, rest: Seq<char>, depth: nat) -> Step {
    Step { out: Some(out), rest, depth }
}

/// A step that refused the formula.
pub open spec fn stop(rest: Seq<char>, depth: nat) -> Step {
    Step { out: None, rest, depth }
}

/// The number of leading ASCII letters of `s`: the name of a command such as `\alpha`.
pub open spec fn alpha_prefix_len(s: Seq<char>) -> nat
    decreases s.len(),
{
    if s.len() > 0 && is_ascii_alpha_char(s[0]) {
        1 + alpha_prefix_len(s.drop_first())
    } else {
        0
    }
}

/// The leading ASCII letters of `s` are exactly its first `alpha_prefix_len(s)` characters.
pub proof fn lemma_alpha_prefix(s: Seq<char>)
    ensures
        alpha_prefix_len(s) <= s.len(),
        forall|i: int| 0 <= i < alpha_prefix_len(s) ==> is_ascii_alpha_char(#[trigger] s[i]),
        alpha_prefix_len(s) < s.len() ==> !is_ascii_alpha_char(s[alpha_prefix_len(s) as int]),
    decreases s.len(),
{
    if s.len() > 0 && is_ascii_alpha_char(s[0]) {
        lemma_alpha_prefix(s.drop_first());
        assert forall|i: int| 0 <= i < alpha_prefix_len(s) implies is_ascii_alpha_char(
            #[trigger] s[i],
        ) by {
            if i > 0 {
                assert(s[i] == s.drop_first()[i - 1]);
            }
        }
    }
}

/// The argument of `^` or `_` written in superscript (`sup`) or subscript letters,
/// or `None` when one of its characters has no such form.
pub open spec fn script_text(arg: Seq<char>, sup: bool) -> Option<Seq<char>> {
    if forall|i: int| 0 <= i < arg.len() ==> (#[trigger] script_of(arg[i], sup)) is Some {
        Some(Seq::new(arg.len(), |i: int| script_of(arg[i], sup).unwrap()))
    } else {
        None
    }
}

/// Characters that end a formula's rendering when they stand alone.
pub open spec fn refused_atom_char(c: char) -> bool {
    c == '}' || c == '$' || c == '%' || c == '#' || c == '&' || c == '`'
}

/// Characters refused inside `\text{..}` and `\operatorname{..}`.
pub open spec fn refused_text_char(c: char) -> bool {
    c == '{' || c == '\\' || c == '$' || c == '%' || c == '#' || c == '&' || is_control_char(c)
}

/// `i` is the first position of `c` in `s`.
pub open spec fn is_first_index(s: Seq<char>, c: char, i: int) -> bool {
    0 <= i < s.len() && s[i] == c && forall|j: int| 0 <= j < i ==> s[j] != c
}

/// The first position of `c` in `s`, if `c` occurs.
pub open spec fn first_index(s: Seq<char>, c: char) -> Option<int> {
    if exists|i: int| is_first_index(s, c, i) {
        Some(choose|i: int| is_first_index(s, c, i))
    } else {
        None
    }
}

/// The names of commands that stand for themselves, such as `\sin`.
pub open spec fn is_operator_name(name: Seq<char>) -> bool {
    name == "sin"@ || name == "cos"@ || name == "tan"@ || name == "log"@ || name == "ln"@ || name
        == "exp"@ || name == "lim"@ || name == "max"@ || name == "min"@
}

/// The blackboard-bold letter that `\mathbb{..}` gives for `arg`.
pub open spec fn blackboard_of(arg: Seq<char>) -> Option<Seq<char>> {
    if arg == "R"@ {
        Some("ℝ"@)
    } else if arg == "C"@ {
        Some("ℂ"@)
    } else if arg == "N"@ {
        Some("ℕ"@)
    } else if arg == "Z"@ {
        Some("ℤ"@)
    } else if arg == "Q"@ {
        Some("ℚ"@)
    } else if arg == "P"@ {
        Some("ℙ"@)
    } else {
        None
    }
}

/// Whether a superscript follows the current base after an atom that starts with `ch`.
pub open spec fn next_sup(ch: char, sup: bool) -> bool {
    if ch == '^' {
        true
    } else if ch == '_' || is_white_space(ch) {
        sup
    } else {
        false
    }
}

/// Whether a subscript follows the current base after an atom that starts with `ch`.
pub open spec fn next_sub(ch: char, sub: bool) -> bool {
    if ch == '_' {
        true
    } else if ch == '^' || is_white_space(ch) {
        sub
    } else {
        false
    }
}

/// Whether the base after an atom `atom` that starts with `ch` is a single character:
/// spaces and scripts keep the base; any other atom becomes the base.
pub open spec fn next_has_base(ch: char, has_base: bool, atom: Seq<char>) -> bool {
    if is_white_space(ch) || ch == '^' || ch == '_' {
        has_base
    } else {
        atom.len() == 1
    }
}

/// A sequence of atoms, up to the end of the input (`group` false) or up to the closing
/// brace of a group (`group` true), which it consumes.
pub open spec fn spec_sequence(rem: Seq<char>, depth: nat, group: bool) -> Step
    decreases rem.len(), 4nat,
{
    if depth >= MAX_DEPTH {
        stop(rem, depth)
    } else {
        spec_sequence_loop(rem, depth + 1, group, seq![], false, false, false)
    }
}

/// The rest of a sequence opened one level below `depth`, given the text rendered so
/// far (`out`), whether a superscript (`sup`) or a subscript (`sub`) already follows the
/// current base, and whether that base is a single character (`has_base`). The level is
/// closed again at the end of the input and at the group's closing brace.
pub open spec fn spec_sequence_loop(
    rem: Seq<char>,
    depth: nat,
    group: bool,
    out: Seq<char>,
    sup: bool,
    sub: bool,
    has_base: bool,
) -> Step
    decreases rem.len(), 3nat,
{
    if rem.len() == 0 {
        if group {
            stop(rem, (depth - 1) as nat)
        } else {
            done(out, rem, (depth - 1) as nat)
        }
    } else {
        let ch = rem[0];
        if ch == '}' {
            if group {
                done(out, rem.drop_first(), (depth - 1) as nat)
            } else {
                stop(rem, depth)
            }
        } else if ch == '^' && (!has_base || sup) {
            stop(rem, depth)
        } else if ch == '_' && (!has_base || sub) {
            stop(rem, depth)
        } else {
            let a = spec_atom(rem, depth);
            match a.out {
                None => a,
                Some(atom) => {
                    let out2 = out + atom;
                    if display_width(out2) > MAX_WIDTH {
                        stop(a.rest, depth)
                    } else if a.rest.len() < rem.len() {
                        spec_sequence_loop(
                            a.rest,
                            depth,
                            group,
                            out2,
                            next_sup(ch, sup),
                            next_sub(ch, sub),
                            next_has_base(ch, has_base, atom),
                        )
                    } else {
                        stop(a.rest, depth)
                    }
                },
            }
        }
    }
}

/// The argument of a command or script: one atom after optional whitespace, which may
/// not itself be a script. A script is refused after the whitespace.
pub open spec fn spec_argument(rem: Seq<char>, depth: nat) -> Step
    decreases rem.len(), 3nat,
{
    let t = trim_start(rem);
    proof {
        lemma_trim_start_suffix(rem);
    }
    if t.len() > 0 && (t[0] == '^' || t[0] == '_') {
        stop(t, depth)
    } else {
        spec_atom(t, depth)
    }
}

/// One atom, one level deeper; the level is closed again after the atom, refused or not.
pub open spec fn spec_atom(rem: Seq<char>, depth: nat) -> Step
    decreases rem.len(), 2nat,
{
    if depth >= MAX_DEPTH {
        stop(rem, depth)
    } else {
        let s = spec_atom_inner(rem, depth + 1);
        Step { out: s.out, rest: s.rest, depth: (s.depth - 1) as nat }
    }
}

/// One atom: a group, a command, a script, a space or a plain character.
pub open spec fn spec_atom_inner(rem: Seq<char>, depth: nat) -> Step
    decreases rem.len(), 1nat,
{
    if rem.len() == 0 {
        stop(rem, depth)
    } else {
        let ch = rem[0];
        let rest = rem.drop_first();
        if ch == '{' {
            spec_sequence(rest, depth, true)
        } else if ch == '\\' {
            spec_command(rest, depth)
        } else if ch == '^' || ch == '_' {
            let a = spec_argument(rest, depth);
            match a.out {
                None => a,
                Some(arg) => match script_text(arg, ch == '^') {
                    None => stop(a.rest, depth),
                    Some(text) => done(text, a.rest, depth),
                },
            }
        } else if refused_atom_char(ch) {
            stop(rest, depth)
        } else if is_white_space(ch) {
            done(seq![' '], trim_start(rest), depth)
        } else if is_control_char(ch) {
            stop(rest, depth)
        } else {
            done(seq![ch], rest, depth)
        }
    }
}

/// The braced text of `\text{..}` or `\operatorname{..}`, shown as it is. Without an
/// opening brace nothing is read; after it, a refusal stops right behind the brace.
pub open spec fn spec_text_body(rem: Seq<char>, depth: nat) -> Step {
    let t = trim_start(rem);
    if t.len() == 0 || t[0] != '{' {
        stop(rem, depth)
    } else {
        let body = t.drop_first();
        match first_index(body, '}') {
            None => stop(body, depth),
            Some(end) => {
                let text = body.take(end);
                if exists|i: int| 0 <= i < text.len() && refused_text_char(#[trigger] text[i]) {
                    stop(body, depth)
                } else {
                    done(text, body.skip(end + 1), depth)
                }
            },
        }
    }
}

/// The names of the commands that take arguments or have a rendering of their own;
/// every other name is looked up with [`symbol_of`].
pub open spec fn is_structural_command(name: Seq<char>) -> bool {
    name == "frac"@ || name == "dfrac"@ || name == "tfrac"@ || name == "sqrt"@ || name
        == "mathbb"@ || name == "mathrm"@ || name == "mathbf"@ || name == "mathit"@ || name
        == "text"@ || name == "operatorname"@ || name == "left"@ || name == "right"@ || name
        == "quad"@ || name == "qquad"@ || is_operator_name(name)
}

/// A command after its backslash.
pub open spec fn spec_command(rem: Seq<char>, depth: nat) -> Step
    decreases rem.len(), 0nat,
{
    let len = alpha_prefix_len(rem);
    proof {
        lemma_alpha_prefix(rem);
    }
    if len == 0 {
        if rem.len() == 0 {
            stop(rem, depth)
        } else {
            let c = rem[0];
            let rest = rem.drop_first();
            if c == ',' || c == ';' || c == ':' || c == ' ' {
                done(seq![' '], rest, depth)
            } else if c == '!' {
                done(seq![], rest, depth)
            } else if c == '{' {
                done(seq!['{'], rest, depth)
            } else if c == '}' {
                done(seq!['}'], rest, depth)
            } else if c == '|' {
                done(seq!['‖'], rest, depth)
            } else {
                stop(rest, depth)
            }
        }
    } else {
        let name = rem.take(len as int);
        let rest = rem.skip(len as int);
        if name == "frac"@ || name == "dfrac"@ || name == "tfrac"@ {
            let a1 = spec_argument(rest, depth);
            match a1.out {
                None => a1,
                Some(num) => if a1.rest.len() <= rest.len() {
                    let a2 = spec_argument(a1.rest, depth);
                    match a2.out {
                        None => a2,
                        Some(den) => done(
                            seq!['(', '('] + num + seq![')', '/', '('] + den + seq![')', ')'],
                            a2.rest,
                            depth,
                        ),
                    }
                } else {
                    stop(a1.rest, depth)
                },
            }
        } else if name == "sqrt"@ {
            let t = trim_start(rest);
            if t.len() > 0 && t[0] == '[' {
                stop(rest, depth)
            } else {
                let a = spec_argument(rest, depth);
                match a.out {
                    None => a,
                    Some(radicand) => done(seq!['√', '('] + radicand + seq![')'], a.rest, depth),
                }
            }
        } else if name == "mathbb"@ {
            let a = spec_argument(rest, depth);
            match a.out {
                None => a,
                Some(arg) => match blackboard_of(arg) {
                    None => stop(a.rest, depth),
                    Some(text) => done(text, a.rest, depth),
                },
            }
        } else if name == "mathrm"@ || name == "mathbf"@ || name == "mathit"@ {
            spec_argument(rest, depth)
        } else if name == "text"@ || name == "operatorname"@ {
            spec_text_body(rest, depth)
        } else if name == "left"@ || name == "right"@ {
            let t = trim_start(rest);
            if t.len() == 0 {
                stop(t, depth)
            } else if t[0] == '.' {
                done(seq![], t.drop_first(), depth)
            } else if t[0] == '(' || t[0] == ')' || t[0] == '[' || t[0] == ']' || t[0] == '|' {
                done(seq![t[0]], t.drop_first(), depth)
            } else {
                stop(t.drop_first(), depth)
            }
        } else if name == "quad"@ || name == "qquad"@ {
            done(seq![' '], rest, depth)
        } else if is_operator_name(name) {
            done(name, rest, depth)
        } else {
            match symbol_of(name) {
                None => stop(rest, depth),
                Some(text) => done(text, rest, depth),
            }
        }
    }
}

/// The rendering of `source`: the trimmed source parsed as one sequence, refused when
/// that fails or renders only whitespace.
pub open spec fn spec_render(source: Seq<char>) -> Option<Seq<char>> {
    match spec_sequence(trim(source), 0, false).out {
        None => None,
        Some(out) => if trim(out).len() == 0 {
            None
        } else {
            Some(out)
        },
    }
}

} // verus!

verus! {

/// The leading letters found by a scan are the command's whole name.
proof fn lemma_alpha_prefix_exact(s: Seq<char>, n: int)
    requires
        0 <= n <= s.len(),
        forall|i: int| 0 <= i < n ==> is_ascii_alpha_char(#[trigger] s[i]),
        n < s.len() ==> !is_ascii_alpha_char(s[n]),
    ensures
        alpha_prefix_len(s) == n,
    decreases n,
{
    if n > 0 {
        assert forall|i: int| 0 <= i < n - 1 implies is_ascii_alpha_char(
            #[trigger] s.drop_first()[i],
        ) by {
            assert(s.drop_first()[i] == s[i + 1]);
        }
        lemma_alpha_prefix_exact(s.drop_first(), n - 1);
    }
}

/// A first position found by a scan is the first position.
pub proof fn lemma_first_index_is(s: Seq<char>, c: char, i: int)
    requires
        is_first_index(s, c, i),
    ensures
        first_index(s, c) == Some(i),
{
    let j = choose|j: int| is_first_index(s, c, j);
    assert(is_first_index(s, c, j));
    if j < i {
        assert(s[j] != c);
    }
    if i < j {
        assert(s[i] != c);
    }
}

/// The optional view of an optional vector.
pub open spec fn opt_chars_view(r: Option<Vec<char>>) -> Option<Seq<char>> {
    match r {
        Some(v) => Some(v@),
        None => None,
    }
}

/// Writes `arg` in superscript (`sup`) or subscript letters.
pub fn script_text_of(arg: &Vec<char>, sup: bool) -> (r: Option<Vec<char>>)
    ensures
        opt_chars_view(r) == script_text(arg@, sup),
{
    let mut output: Vec<char> = Vec::new();
    let mut i: usize = 0;
    while i < arg.len()
        invariant
            i <= arg.len(),
            output@ == Seq::new(i as nat, |k: int| script_of(arg@[k], sup).unwrap()),
            forall|k: int| 0 <= k < i ==> (#[trigger] script_of(arg@[k], sup)) is Some,
        decreases arg.len() - i,
    {
        match script_char(arg[i], sup) {
            Some(c) => {
                output.push(c);
            },
            None => {
                assert(script_of(arg@[i as int], sup) is None);
                return None;
            },
        }
        i += 1;
        assert(output@ =~= Seq::new(i as nat, |k: int| script_of(arg@[k], sup).unwrap()));
    }
    Some(output)
}

/// Whether `text` holds a character that `\text{..}` refuses.
pub fn has_refused_text_char(text: &Vec<char>) -> (r: bool)
    ensures
        r == exists|i: int| 0 <= i < text@.len() && refused_text_char(#[trigger] text@[i]),
{
    let mut k: usize = 0;
    while k < text.len()
        invariant
            k <= text.len(),
            forall|i: int| 0 <= i < k ==> !refused_text_char(#[trigger] text@[i]),
        decreases text.len() - k,
    {
        let c = text[k];
        if c == '{' || c == '\\' || c == '$' || c == '%' || c == '#' || c == '&' || is_control(c) {
            assert(refused_text_char(text@[k as int]));
            return true;
        }
        k += 1;
    }
    false
}

/// A parser over the characters of a formula: `chars[pos..]` is what is left to read,
/// and `depth` counts the groups and atoms that enclose the current position.
pub struct MathParser {
    pub chars: Vec<char>,
    pub pos: usize,
    pub depth: usize,
}

/// The blackboard-bold letter that `\mathbb{..}` gives for `arg`.
pub fn blackboard(arg: &str) -> (r: Option<&'static str>)
    ensures
        opt_str_view(r) == blackboard_of(arg@),
{
    if str_eq(arg, "R") {
        Some("ℝ")
    } else if str_eq(arg, "C") {
        Some("ℂ")
    } else if str_eq(arg, "N") {
        Some("ℕ")
    } else if str_eq(arg, "Z") {
        Some("ℤ")
    } else if str_eq(arg, "Q") {
        Some("ℚ")
    } else if str_eq(arg, "P") {
        Some("ℙ")
    } else {
        None
    }
}

/// One character as a vector.
fn single(c: char) -> (v: Vec<char>)
    ensures
        v@ == seq![c],
{
    let mut v: Vec<char> = Vec::new();
    v.push(c);
    v
}

impl MathParser {
    /// The parser's position lies within its characters.
    pub open spec fn wf(&self) -> bool {
        self.pos <= self.chars.len()
    }

    /// What is left to read.
    pub open spec fn remaining(&self) -> Seq<char> {
        self.chars@.skip(self.pos as int)
    }

    /// How a step left the parser, given what the step's specification `expected` says:
    /// the rendered text (or the refusal), the input left over and the depth agree with
    /// it. The position never moves back and the depth never drops below where it was;
    /// on success the depth is back where it was.
    pub open spec fn stepped(
        before: MathParser,
        after: MathParser,
        r: Option<Vec<char>>,
        expected: Step,
    ) -> bool {
        &&& after.wf()
        &&& after.chars@ == before.chars@
        &&& after.pos >= before.pos
        &&& after.depth >= before.depth
        &&& expected == Step {
            out: opt_chars_view(r),
            rest: after.remaining(),
            depth: after.depth as nat,
        }
        &&& r is Some ==> after.depth == before.depth
    }

    /// A parser at the start of `source`, at depth zero.
    pub fn new(source: &str) -> (p: MathParser)
        ensures
            p.wf(),
            p.remaining() == source@,
            p.depth == 0,
    {
        let chars = str_chars(source);
        proof {
            assert(chars@.skip(0) =~= chars@);
        }
        MathParser { chars, pos: 0, depth: 0 }
    }

    /// Reads one character.
    pub fn take(&mut self) -> (r: Option<char>)
        requires
            old(self).wf(),
        ensures
            final(self).wf(),
            final(self).chars@ == old(self).chars@,
            final(self).depth == old(self).depth,
            old(self).remaining().len() == 0 ==> r is None && final(self).pos == old(self).pos,
            old(self).remaining().len() > 0 ==> r == Some(old(self).remaining()[0])
                && final(self).pos == old(self).pos + 1 && final(self).remaining()
                == old(self).remaining().drop_first(),
    {
        if self.pos < self.chars.len() {
            let c = self.chars[self.pos];
            self.pos += 1;
            proof {
                assert(self.chars@.skip(self.pos as int) =~= self.chars@.skip(
                    self.pos - 1,
                ).drop_first());
            }
            Some(c)
        } else {
            None
        }
    }

    /// Parses a sequence of atoms, to the end of the input or, for a `group`, to its
    /// closing brace.
    pub fn sequence(&mut self, group: bool) -> (r: Option<Vec<char>>)
        requires
            old(self).wf(),
        ensures
            Self::stepped(
                *old(self),
                *final(self),
                r,
                spec_sequence(old(self).remaining(), old(self).depth as nat, group),
            ),
            old(self).depth >= MAX_DEPTH ==> r is None && final(self).pos == old(self).pos
                && final(self).depth == old(self).depth,
        decreases old(self).chars@.len() - old(self).pos, 4nat,
    {
        if self.depth >= MAX_DEPTH {
            return None;
        }
        self.depth += 1;
        let mut result: Vec<char> = Vec::new();
        let mut sup = false;
        let mut sub = false;
        let mut has_base = false;
        while self.pos < self.chars.len()
            invariant
                self.wf(),
                self.chars@ == old(self).chars@,
                old(self).depth < MAX_DEPTH,
                self.depth == old(self).depth + 1,
                self.pos >= old(self).pos,
                spec_sequence_loop(
                    self.remaining(),
                    self.depth as nat,
                    group,
                    result@,
                    sup,
                    sub,
                    has_base,
                ) == spec_sequence(old(self).remaining(), old(self).depth as nat, group),
            decreases self.chars@.len() - self.pos,
        {
            let ch = self.chars[self.pos];
            assert(self.remaining()[0] == ch);
            if ch == '}' {
                if !group {
                    return None;
                }
                self.take();
                self.depth -= 1;
                return Some(result);
            }
            if ch == '^' && (!has_base || sup) {
                return None;
            }
            if ch == '_' && (!has_base || sub) {
                return None;
            }
            let ws = is_whitespace(ch);
            let sup2 = if ch == '^' {
                true
            } else if ch == '_' || ws {
                sup
            } else {
                false
            };
            let sub2 = if ch == '_' {
                true
            } else if ch == '^' || ws {
                sub
            } else {
                false
            };
            let ghost rem = self.remaining();
            let ghost out = result@;
            let atom = match self.atom() {
                Some(a) => a,
                None => return None,
            };
            if !ws && ch != '^' && ch != '_' {
                has_base = atom.len() == 1;
            }
            sup = sup2;
            sub = sub2;
            push_chars(&mut result, &atom);
            assert(result@ == out + atom@);
            if text_width(&result) > MAX_WIDTH {
                return None;
            }
            assert(self.remaining().len() < rem.len());
        }
        assert(self.remaining().len() == 0);
        self.depth -= 1;
        if group {
            None
        } else {
            Some(result)
        }
    }

    /// Parses the argument of a command or script: one atom after optional whitespace.
    pub fn argument(&mut self) -> (r: Option<Vec<char>>)
        requires
            old(self).wf(),
        ensures
            Self::stepped(
                *old(self),
                *final(self),
                r,
                spec_argument(old(self).remaining(), old(self).depth as nat),
            ),
            ({
                let t = trim_start(old(self).remaining());
                t.len() > 0 && (t[0] == '^' || t[0] == '_') ==> r is None && final(self).remaining()
                    == t && final(self).depth == old(self).depth
            }),
        decreases old(self).chars@.len() - old(self).pos, 3nat,
    {
        let p = skip_whitespace(&self.chars, self.pos);
        self.pos = p;
        if p < self.chars.len() && (self.chars[p] == '^' || self.chars[p] == '_') {
            assert(self.remaining()[0] == self.chars@[p as int]);
            return None;
        }
        self.atom()
    }

    /// Parses one atom, one level deeper.
    pub fn atom(&mut self) -> (r: Option<Vec<char>>)
        requires
            old(self).wf(),
        ensures
            Self::stepped(
                *old(self),
                *final(self),
                r,
                spec_atom(old(self).remaining(), old(self).depth as nat),
            ),
            r is Some ==> final(self).pos > old(self).pos,
            old(self).depth >= MAX_DEPTH ==> r is None && final(self).pos == old(self).pos
                && final(self).depth == old(self).depth,
        decreases old(self).chars@.len() - old(self).pos, 2nat,
    {
        if self.depth >= MAX_DEPTH {
            return None;
        }
        self.depth += 1;
        let result = self.atom_inner();
        self.depth -= 1;
        result
    }

    /// Parses one atom: a group, a command, a script, a space or a plain character.
    pub fn atom_inner(&mut self) -> (r: Option<Vec<char>>)
        requires
            old(self).wf(),
        ensures
            Self::stepped(
                *old(self),
                *final(self),
                r,
                spec_atom_inner(old(self).remaining(), old(self).depth as nat),
            ),
            r is Some ==> final(self).pos > old(self).pos,
        decreases old(self).chars@.len() - old(self).pos, 1nat,
    {
        let ch = match self.take() {
            Some(c) => c,
            None => return None,
        };
        if ch == '{' {
            return self.sequence(true);
        }
        if ch == '\\' {
            return self.command();
        }
        if ch == '^' || ch == '_' {
            let arg = match self.argument() {
                Some(a) => a,
                None => return None,
            };
            return script_text_of(&arg, ch == '^');
        }
        if ch == '}' || ch == '$' || ch == '%' || ch == '#' || ch == '&' || ch == '`' {
            return None;
        }
        if is_whitespace(ch) {
            self.pos = skip_whitespace(&self.chars, self.pos);
            return Some(single(' '));
        }
        if is_control(ch) {
            return None;
        }
        Some(single(ch))
    }

    /// Parses a command after its backslash.
    #[verifier::rlimit(50)]
    pub fn command(&mut self) -> (r: Option<Vec<char>>)
        requires
            old(self).wf(),
        ensures
            Self::stepped(
                *old(self),
                *final(self),
                r,
                spec_command(old(self).remaining(), old(self).depth as nat),
            ),
            ({
                let rem = old(self).remaining();
                let len = alpha_prefix_len(rem);
                len > 0 && !is_structural_command(rem.take(len as int)) ==> opt_chars_view(r)
                    == symbol_of(rem.take(len as int)) && final(self).remaining() == rem.skip(
                    len as int,
                ) && final(self).depth == old(self).depth
            }),
        decreases old(self).chars@.len() - old(self).pos, 0nat,
    {
        let ghost rem = self.remaining();
        let start = self.pos;
        let mut end = start;
        while end < self.chars.len() && is_ascii_alpha(self.chars[end])
            invariant
                self.wf(),
                start == self.pos,
                start <= end <= self.chars.len(),
                rem == self.remaining(),
                forall|i: int| start <= i < end ==> is_ascii_alpha_char(#[trigger] self.chars@[i]),
            decreases self.chars.len() - end,
        {
            end += 1;
        }
        proof {
            assert forall|i: int| 0 <= i < end - start implies is_ascii_alpha_char(
                #[trigger] rem[i],
            ) by {
                assert(rem[i] == self.chars@[start + i]);
            }
            if end < self.chars.len() {
                assert(rem[end - start] == self.chars@[end as int]);
            }
            lemma_alpha_prefix_exact(rem, end - start);
        }
        if end == start {
            let c = match self.take() {
                Some(c) => c,
                None => return None,
            };
            if c == ',' || c == ';' || c == ':' || c == ' ' {
                return Some(single(' '));
            } else if c == '!' {
                return Some(Vec::new());
            } else if c == '{' {
                return Some(single('{'));
            } else if c == '}' {
                return Some(single('}'));
            } else if c == '|' {
                return Some(single('‖'));
            } else {
                return None;
            }
        }
        let name_chars = sub_chars(&self.chars, start, end);
        let name_string = chars_to_string(&name_chars);
        let name = name_string.as_str();
        assert(name@ == rem.take(end - start));
        self.pos = end;
        assert(self.remaining() =~= rem.skip(end - start));
        if str_eq(name, "frac") || str_eq(name, "dfrac") || str_eq(name, "tfrac") {
            let numerator = match self.argument() {
                Some(a) => a,
                None => return None,
            };
            let denominator = match self.argument() {
                Some(a) => a,
                None => return None,
            };
            let mut out = Vec::new();
            out.push('(');
            out.push('(');
            push_chars(&mut out, &numerator);
            out.push(')');
            out.push('/');
            out.push('(');
            push_chars(&mut out, &denominator);
            out.push(')');
            out.push(')');
            assert(out@ =~= seq!['(', '('] + numerator@ + seq![')', '/', '('] + denominator@
                + seq![')', ')']);
            Some(out)
        } else if str_eq(name, "sqrt") {
            let p = skip_whitespace(&self.chars, self.pos);
            if p < self.chars.len() && self.chars[p] == '[' {
                assert(self.chars@.skip(p as int)[0] == self.chars@[p as int]);
                return None;
            }
            let radicand = match self.argument() {
                Some(a) => a,
                None => return None,
            };
            let mut out = Vec::new();
            out.push('√');
            out.push('(');
            push_chars(&mut out, &radicand);
            out.push(')');
            assert(out@ =~= seq!['√', '('] + radicand@ + seq![')']);
            Some(out)
        } else if str_eq(name, "mathbb") {
            let arg = match self.argument() {
                Some(a) => a,
                None => return None,
            };
            let arg_string = chars_to_string(&arg);
            match blackboard(arg_string.as_str()) {
                Some(text) => {
                    let mut out = Vec::new();
                    push_str(&mut out, text);
                    assert(out@ =~= text@);
                    Some(out)
                },
                None => None,
            }
        } else if str_eq(name, "mathrm") || str_eq(name, "mathbf") || str_eq(name, "mathit") {
            self.argument()
        } else if str_eq(name, "text") || str_eq(name, "operatorname") {
            self.text_body()
        } else if str_eq(name, "left") || str_eq(name, "right") {
            let p = skip_whitespace(&self.chars, self.pos);
            self.pos = p;
            let c = match self.take() {
                Some(c) => c,
                None => return None,
            };
            if c == '.' {
                Some(Vec::new())
            } else if c == '(' || c == ')' || c == '[' || c == ']' || c == '|' {
                Some(single(c))
            } else {
                None
            }
        } else if str_eq(name, "quad") || str_eq(name, "qquad") {
            Some(single(' '))
        } else if str_eq(name, "sin") || str_eq(name, "cos") || str_eq(name, "tan") || str_eq(
            name,
            "log",
        ) || str_eq(name, "ln") || str_eq(name, "exp") || str_eq(name, "lim") || str_eq(
            name,
            "max",
        ) || str_eq(name, "min") {
            Some(name_chars)
        } else {
            match symbol(name) {
                Some(text) => {
                    let mut out = Vec::new();
                    push_str(&mut out, text);
                    assert(out@ =~= text@);
                    Some(out)
                },
                None => None,
            }
        }
    }

    /// Reads the braced text of `\text{..}` or `\operatorname{..}`, which is shown as it is.
    fn text_body(&mut self) -> (r: Option<Vec<char>>)
        requires
            old(self).wf(),
        ensures
            Self::stepped(
                *old(self),
                *final(self),
                r,
                spec_text_body(old(self).remaining(), old(self).depth as nat),
            ),
    {
        let p = skip_whitespace(&self.chars, self.pos);
        let ghost t = self.chars@.skip(p as int);
        if p >= self.chars.len() || self.chars[p] != '{' {
            return None;
        }
        assert(t[0] == self.chars@[p as int]);
        let body_start = p + 1;
        let ghost body = t.drop_first();
        assert(body =~= self.chars@.skip(body_start as int));
        self.pos = body_start;
        let mut e = body_start;
        while e < self.chars.len() && self.chars[e] != '}'
            invariant
                body_start <= e <= self.chars.len(),
                body == self.chars@.skip(body_start as int),
                forall|j: int| body_start <= j < e ==> self.chars@[j] != '}',
            decreases self.chars.len() - e,
        {
            e += 1;
        }
        if e >= self.chars.len() {
            assert forall|i: int| !is_first_index(body, '}', i) by {
                if 0 <= i < body.len() {
                    assert(body[i] == self.chars@[body_start + i]);
                }
            }
            return None;
        }
        let ghost end = e - body_start;
        assert forall|j: int| 0 <= j < end implies body[j] != '}' by {
            assert(body[j] == self.chars@[body_start + j]);
        }
        assert(body[end] == self.chars@[e as int]);
        proof {
            lemma_first_index_is(body, '}', end);
        }
        let text = sub_chars(&self.chars, body_start, e);
        assert(text@ =~= body.take(end));
        if has_refused_text_char(&text) {
            return None;
        }
        self.pos = e + 1;
        assert(self.remaining() =~= body.skip(end + 1));
        Some(text)
    }
}

} // verus!

verus! {

/// The optional view of an optional string.
pub open spec fn opt_string_view(r: Option<String>) -> Option<Seq<char>> {
    match r {
        Some(s) => Some(s@),
        None => None,
    }
}

/// Renders a formula of the supported TeX subset as Unicode text, or refuses it.
pub fn render(source: &str) -> (r: Option<String>)
    ensures
        opt_string_view(r) == spec_render(source@),
{
    let chars = str_chars(source);
    let a = skip_whitespace(&chars, 0);
    let e = trim_end_index(&chars, a, chars.len());
    proof {
        assert(chars@.skip(0) =~= chars@);
        assert(chars@.subrange(a as int, chars.len() as int) =~= chars@.skip(a as int));
    }
    let trimmed = sub_chars(&chars, a, e);
    let mut parser = MathParser { chars: trimmed, pos: 0, depth: 0 };
    assert(parser.remaining() =~= trim(source@));
    let result = match parser.sequence(false) {
        Some(out) => out,
        None => return None,
    };
    let ra = skip_whitespace(&result, 0);
    let re = trim_end_index(&result, ra, result.len());
    proof {
        assert(result@.skip(0) =~= result@);
        assert(result@.subrange(ra as int, result.len() as int) =~= result@.skip(ra as int));
    }
    if ra == re {
        None
    } else {
        Some(chars_to_string(&result))
    }
}

} // verus!
