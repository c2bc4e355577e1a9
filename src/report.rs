//! A text report built line by line, then framed: rule lines are drawn across the full
//! width and, with borders on, every other line is padded and closed by a right border.
use vstd::prelude::*;
use vstd::string::*;
use vstd::utf8::*;

verus! {

/// The width of a line as the report measures it: the length of its UTF-8 encoding.
pub open spec fn width(s: Seq<char>) -> nat {
    encode_utf8(s).len()
}

/// `s` repeated `n` times.
pub open spec fn repeat(s: Seq<char>, n: nat) -> Seq<char>
    decreases n,
{
    if n == 0 {
        Seq::empty()
    } else {
        repeat(s, (n - 1) as nat) + s
    }
}

/// The widest line's width, zero for no lines.
pub open spec fn max_width(buf: Seq<Seq<char>>) -> nat
    decreases buf.len(),
{
    if buf.len() == 0 {
        0
    } else if width(buf.last()) > max_width(buf.drop_last()) {
        width(buf.last())
    } else {
        max_width(buf.drop_last())
    }
}

/// The padded width before the right border: one more than the widest line (52 standing
/// for the widest line of an empty report).
pub open spec fn frame_width(buf: Seq<Seq<char>>) -> nat {
    (if buf.len() == 0 {
        52
    } else {
        max_width(buf)
    }) + 1
}

/// A rule line of width `w + 1`: a corner, `w - 1` fill characters, a corner.
pub open spec fn rule_line(corner: Seq<char>, fill: Seq<char>, w: nat) -> Seq<char> {
    corner + repeat(fill, (w - 1) as nat) + corner
}

/// A content line padded with spaces to width `w` and closed by `right`.
pub open spec fn padded_line(line: Seq<char>, right: Seq<char>, w: nat) -> Seq<char> {
    line + repeat(seq![' '], (w - width(line)) as nat) + right
}

/// Line `i` of `text` once framed: a rule where `rules` says so, else padded and closed
/// by the right border when `bordered`, else as it is.
pub open spec fn framed(
    text: Seq<Seq<char>>,
    rules: Seq<usize>,
    bordered: bool,
    right: Seq<char>,
    fill: Seq<char>,
    corner: Seq<char>,
    i: int,
) -> Seq<char> {
    if rules.contains(i as usize) {
        rule_line(corner, fill, frame_width(text))
    } else if bordered {
        padded_line(text[i], right, frame_width(text))
    } else {
        text[i]
    }
}

/// The lines joined by newlines.
pub open spec fn joined(lines: Seq<Seq<char>>) -> Seq<char>
    decreases lines.len(),
{
    if lines.len() == 0 {
        Seq::empty()
    } else if lines.len() == 1 {
        lines[0]
    } else {
        joined(lines.drop_last()) + seq!['\n'] + lines.last()
    }
}

proof fn lemma_encode_concat(a: Seq<char>, b: Seq<char>)
    ensures
        encode_utf8(a + b) == encode_utf8(a) + encode_utf8(b),
    decreases a.len(),
{
    if a.len() == 0 {
        assert(a + b =~= b);
        assert(encode_utf8(a) =~= Seq::<u8>::empty());
        assert(encode_utf8(a) + encode_utf8(b) =~= encode_utf8(b));
    } else {
        lemma_encode_concat(a.drop_first(), b);
        assert((a + b).drop_first() =~= a.drop_first() + b);
        assert((a + b)[0] == a[0]);
        assert(encode_utf8(a + b) =~= encode_utf8(a) + encode_utf8(b));
    }
}

proof fn lemma_width_concat(a: Seq<char>, b: Seq<char>)
    ensures
        width(a + b) == width(a) + width(b),
{
    lemma_encode_concat(a, b);
}

proof fn lemma_width_one(c: char)
    requires
        (c as u32) < 128,
    ensures
        width(seq![c]) == 1,
{
    let s = seq![c];
    assert(s.drop_first() =~= Seq::<char>::empty());
    assert(has_width_1_encoding(c as u32));
    assert(encode_utf8(s.drop_first()) =~= Seq::<u8>::empty());
    assert(encode_scalar(c as u32).len() == 1);
    assert(encode_utf8(s) == encode_scalar(s[0] as u32) + encode_utf8(s.drop_first()));
}

proof fn lemma_width_repeat(s: Seq<char>, n: nat)
    requires
        width(s) == 1,
    ensures
        width(repeat(s, n)) == n,
    decreases n,
{
    if n > 0 {
        lemma_width_repeat(s, (n - 1) as nat);
        lemma_width_concat(repeat(s, (n - 1) as nat), s);
    } else {
        assert(encode_utf8(Seq::<char>::empty()) =~= Seq::<u8>::empty());
    }
}

proof fn lemma_max_width(buf: Seq<Seq<char>>, i: int)
    requires
        0 <= i < buf.len(),
    ensures
        width(buf[i]) <= max_width(buf),
    decreases buf.len(),
{
    if i < buf.len() - 1 {
        lemma_max_width(buf.drop_last(), i);
    }
}

/// A report under construction: its lines, and which of them are rules.
pub struct Report {
    buf: Vec<String>,
    lines: Vec<usize>,
    lborder: &'static str,
    rborder: &'static str,
    tborder: &'static str,
    cborder: &'static str,
    border: bool,
}

impl Report {
    /// The lines written so far.
    pub closed spec fn text(&self) -> Seq<Seq<char>> {
        self.buf@.map_values(|s: String| s@)
    }

    /// The positions of the rule lines.
    pub closed spec fn rules(&self) -> Seq<usize> {
        self.lines@
    }

    pub closed spec fn bordered(&self) -> bool {
        self.border
    }

    pub closed spec fn left(&self) -> Seq<char> {
        self.lborder@
    }

    pub closed spec fn right(&self) -> Seq<char> {
        self.rborder@
    }

    pub closed spec fn fill(&self) -> Seq<char> {
        self.tborder@
    }

    pub closed spec fn corner(&self) -> Seq<char> {
        self.cborder@
    }

    /// Each border piece is a single one-byte character.
    pub open spec fn wf(&self) -> bool {
        &&& self.left().len() == 1 && width(self.left()) == 1
        &&& self.right().len() == 1 && width(self.right()) == 1
        &&& self.fill().len() == 1 && width(self.fill()) == 1
        &&& self.corner().len() == 1 && width(self.corner()) == 1
    }

    /// What `w` puts before a line: the left border and a space, with borders on.
    pub open spec fn prefix(&self) -> Seq<char> {
        if self.bordered() {
            self.left() + seq![' ']
        } else {
            Seq::empty()
        }
    }

    /// Whether `other` has the same borders and border setting.
    pub open spec fn same_frame(&self, other: &Report) -> bool {
        &&& self.bordered() == other.bordered()
        &&& self.left() == other.left()
        &&& self.right() == other.right()
        &&& self.fill() == other.fill()
        &&& self.corner() == other.corner()
    }

    /// Line `i` once framed.
    pub open spec fn framed_line(&self, i: int) -> Seq<char> {
        framed(
            self.text(),
            self.rules(),
            self.bordered(),
            self.right(),
            self.fill(),
            self.corner(),
            i,
        )
    }

    /// An empty report with borders off.
    pub fn plain_report() -> (r: Report)
        ensures
            r.wf(),
            r.text().len() == 0,
            r.rules().len() == 0,
            !r.bordered(),
            r.fill() == seq!['-'],
            r.corner() == seq!['+'],
    {
        let mut r = Report::default();
        r.border = false;
        r
    }

    /// Writes one line, after the left border and a space when borders are on.
    pub fn w(&mut self, line: &str)
        ensures
            final(self).text() == old(self).text().push(old(self).prefix() + line@),
            final(self).rules() == old(self).rules(),
            final(self).same_frame(old(self)),
    {
        let mut s = String::new();
        if self.border {
            s.append(self.lborder);
            s.append(" ");
            proof {
                reveal_strlit(" ");
            }
        }
        s.append(line);
        let ghost before = self.buf@;
        self.buf.push(s);
        proof {
            assert(s@ =~= old(self).prefix() + line@);
            assert(self.text() =~= old(self).text().push(old(self).prefix() + line@));
        }
    }

    /// Writes a line that rendering turns into a rule.
    pub fn line(&mut self)
        ensures
            final(self).text() == old(self).text().push(old(self).prefix()),
            final(self).rules() == old(self).rules().push(old(self).text().len() as usize),
            final(self).same_frame(old(self)),
    {
        self.w("");
        proof {
            reveal_strlit("");
            assert(old(self).prefix() + ""@ =~= old(self).prefix());
        }
        proof {
            assert(self.buf@.len() == self.text().len());
        }
        let n = self.buf.len() - 1;
        self.lines.push(n);
    }

    /// Frames every line: each rule line becomes a corner, a run of fill characters and a
    /// corner, as wide as the padded lines; with borders on, each other line is padded
    /// with spaces to one more than the widest line and closed by the right border.
    pub fn render(&mut self)
        requires
            old(self).wf(),
        ensures
            final(self).same_frame(old(self)),
            final(self).rules() == old(self).rules(),
            final(self).text().len() == old(self).text().len(),
            forall|i: int|
                0 <= i < old(self).text().len() ==> #[trigger] final(self).text()[i]
                    == old(self).framed_line(i),
    {
        let n = self.buf.len();
        let ghost old_text = self.text();
        let mut max_len: u128 = 0;
        let mut i: usize = 0;
        proof {
            assert(self.buf@.len() == old_text.len());
            assert(old_text.take(0) =~= Seq::<Seq<char>>::empty());
        }
        while i < n
            invariant
                i <= n == self.buf@.len() == old_text.len(),
                old_text == self.text(),
                max_len == max_width(old_text.take(i as int)),
                max_len <= usize::MAX,
            decreases n - i,
        {
            let l = byte_width(self.buf[i].as_str()) as u128;
            proof {
                assert(old_text.take(i + 1).drop_last() =~= old_text.take(i as int));
                assert(old_text.take(i + 1).last() == old_text[i as int]);
                assert(old_text[i as int] == self.buf@[i as int]@);
            }
            if l > max_len {
                max_len = l;
            }
            i = i + 1;
        }
        proof {
            assert(old_text.take(n as int) =~= old_text);
        }
        if n == 0 {
            max_len = 52;
        }
        let w: u128 = max_len + 1;
        let mut idx: usize = 0;
        while idx < n
            invariant
                n == self.buf@.len() == old_text.len(),
                old_text == old(self).text(),
                idx <= n,
                w == frame_width(old_text),
                self.same_frame(old(self)),
                self.rules() == old(self).rules(),
                old(self).wf(),
                forall|k: int|
                    0 <= k < idx ==> #[trigger] self.text()[k] == old(self).framed_line(k),
                forall|k: int| idx <= k < n ==> #[trigger] self.text()[k] == old_text[k],
            decreases n - idx,
        {
            let ghost before = self.text();
            if contains_index(&self.lines, idx) {
                let mut s = String::new();
                s.append(self.cborder);
                push_repeated(&mut s, self.tborder, w - 1);
                s.append(self.cborder);
                self.buf.set(idx, s);
                proof {
                    assert(s@ =~= rule_line(self.corner(), self.fill(), frame_width(old_text)));
                }
            } else if self.border {
                let mut s = self.buf[idx].clone();
                let l = byte_width(s.as_str()) as u128;
                proof {
                    assert(self.text()[idx as int] == self.buf@[idx as int]@);
                    assert(s@ == old_text[idx as int]);
                    assert(l == width(s@));
                    lemma_max_width(old_text, idx as int);
                }
                push_repeated(&mut s, " ", w - l);
                s.append(self.rborder);
                self.buf.set(idx, s);
                proof {
                    reveal_strlit(" ");
                    assert(" "@ =~= seq![' ']);
                    let w_spec = frame_width(old_text);
                    assert(s@ =~= padded_line(old_text[idx as int], self.right(), w_spec));
                }
            }
            proof {
                assert forall|k: int| 0 <= k < n implies #[trigger] self.text()[k] == (if k == idx {
                    old(self).framed_line(k)
                } else {
                    before[k]
                }) by {
                    assert(self.text()[k] == self.buf@[k]@);
                }
            }
            idx = idx + 1;
        }
    }

    /// The lines joined by newlines.
    pub fn contents(&self) -> (r: String)
        ensures
            r@ == joined(self.text()),
    {
        let mut r = String::new();
        let mut i: usize = 0;
        proof {
            assert(self.text().take(0) =~= Seq::<Seq<char>>::empty());
        }
        while i < self.buf.len()
            invariant
                i <= self.buf@.len() == self.text().len(),
                r@ == joined(self.text().take(i as int)),
            decreases self.buf@.len() - i,
        {
            if i > 0 {
                r.append("\n");
                proof {
                    reveal_strlit("\n");
                }
            }
            r.append(self.buf[i].as_str());
            proof {
                let t = self.text().take(i + 1);
                assert(t.drop_last() =~= self.text().take(i as int));
                assert(t.last() == self.buf@[i as int]@);
                if i == 0 {
                    assert(r@ =~= joined(t));
                } else {
                    assert("\n"@ =~= seq!['\n']);
                    assert(r@ =~= joined(t));
                }
            }
            i = i + 1;
        }
        proof {
            assert(self.text().take(i as int) =~= self.text());
        }
        r
    }
}

impl Default for Report {
    /// An empty report with borders: `|` at the sides, rules of `-` between `+` corners.
    fn default() -> (r: Report)
        ensures
            r.wf(),
            r.text().len() == 0,
            r.rules().len() == 0,
            r.bordered(),
            r.left() == seq!['|'],
            r.right() == seq!['|'],
            r.fill() == seq!['-'],
            r.corner() == seq!['+'],
    {
        let r = Report {
            buf: Vec::new(),
            lines: Vec::new(),
            lborder: "|",
            rborder: "|",
            tborder: "-",
            cborder: "+",
            border: true,
        };
        proof {
            reveal_strlit("|");
            reveal_strlit("-");
            reveal_strlit("+");
            assert("|"@ =~= seq!['|']);
            assert("-"@ =~= seq!['-']);
            assert("+"@ =~= seq!['+']);
            lemma_width_one('|');
            lemma_width_one('-');
            lemma_width_one('+');
            assert(r.text() =~= Seq::<Seq<char>>::empty());
        }
        r
    }
}

/// The width of `s`: its length in bytes.
fn byte_width(s: &str) -> (r: usize)
    ensures
        r == width(s@),
{
    let b = s.as_bytes();
    proof {
        broadcast use vstd::slice::group_slice_axioms;
    }
    b.len()
}

/// Whether `v` holds `x`.
fn contains_index(v: &Vec<usize>, x: usize) -> (r: bool)
    ensures
        r == v@.contains(x),
{
    let mut i: usize = 0;
    while i < v.len()
        invariant
            i <= v@.len(),
            forall|k: int| 0 <= k < i ==> v@[k] != x,
        decreases v@.len() - i,
    {
        if v[i] == x {
            return true;
        }
        i = i + 1;
    }
    false
}

/// Appends `piece` to `s`, `n` times.
fn push_repeated(s: &mut String, piece: &str, n: u128)
    ensures
        final(s)@ == old(s)@ + repeat(piece@, n as nat),
{
    let mut k: u128 = 0;
    proof {
        assert(old(s)@ + repeat(piece@, 0) =~= old(s)@);
    }
    while k < n
        invariant
            k <= n,
            s@ == old(s)@ + repeat(piece@, k as nat),
        decreases n - k,
    {
        s.append(piece);
        proof {
            assert(old(s)@ + repeat(piece@, (k + 1) as nat) =~= old(s)@ + repeat(piece@, k as nat)
                + piece@);
        }
        k = k + 1;
    }
}

/// Once framed, a rule line is as wide as the padded lines, one more than the frame
/// width; with borders on, so is every other line.
pub proof fn lemma_framed_widths(r: Report)
    requires
        r.wf(),
    ensures
        forall|i: int|
            0 <= i < r.text().len() && r.rules().contains(i as usize) ==> width(
                #[trigger] r.framed_line(i),
            ) == frame_width(r.text()) + 1,
        r.bordered() ==> forall|i: int|
            0 <= i < r.text().len() ==> width(#[trigger] r.framed_line(i)) == frame_width(r.text())
                + 1,
{
    let fw = frame_width(r.text());
    assert forall|i: int|
        0 <= i < r.text().len() && (r.rules().contains(i as usize) || r.bordered()) implies width(
            #[trigger] r.framed_line(i),
        ) == fw + 1 by {
        if r.rules().contains(i as usize) {
            lemma_width_repeat(r.fill(), (fw - 1) as nat);
            lemma_width_concat(r.corner(), repeat(r.fill(), (fw - 1) as nat));
            lemma_width_concat(r.corner() + repeat(r.fill(), (fw - 1) as nat), r.corner());
        } else {
            let line = r.text()[i];
            lemma_max_width(r.text(), i);
            lemma_width_one(' ');
            lemma_width_repeat(seq![' '], (fw - width(line)) as nat);
            lemma_width_concat(line, repeat(seq![' '], (fw - width(line)) as nat));
            lemma_width_concat(line + repeat(seq![' '], (fw - width(line)) as nat), r.right());
        }
    }
}

} // verus!
