//! Building the output page's text: edit summaries, the header line, the
//! `$`-escape templating for result lists, and how fresh content is
//! merged with a page that already starts with a `<noinclude>` header.

use vstd::prelude::*;
use crate::strutil::{chars_string, dec_digits, int_digits, i64_to_dec, str_chars, u64_to_dec};

verus! {

/// `$`-escape substitution with one placeholder: `$$` yields `$`, `$+`
/// yields the total count, any other escaped character is kept with its
/// dollar sign; a trailing lone `$` is dropped.
pub open spec fn subst_rec(t: Seq<char>, esc: bool, total: Seq<char>) -> Seq<char>
    decreases t.len(),
{
    if t.len() == 0 {
        Seq::empty()
    } else {
        let c = t[0];
        let rest = t.subrange(1, t.len() as int);
        if esc {
            let piece = if c == '$' {
                seq!['$']
            } else if c == '+' {
                total
            } else {
                seq!['$', c]
            };
            piece.add(subst_rec(rest, false, total))
        } else if c == '$' {
            subst_rec(rest, true, total)
        } else {
            seq![c].add(subst_rec(rest, false, total))
        }
    }
}

/// The template with `$+` replaced by the total count.
pub open spec fn subst_template(t: Seq<char>, total: Seq<char>) -> Seq<char> {
    subst_rec(t, false, total)
}

/// Substitute the total count into a `$`-escape template.
pub fn substitute_str_template(template: &str, total_num: u64) -> (r: String)
    ensures
        r@ == subst_template(template@, dec_digits(total_num as int)),
{
    let total = u64_to_dec(total_num);
    let chars = str_chars(template);
    let mut out: Vec<char> = Vec::new();
    let mut esc = false;
    let mut i: usize = 0;
    let len = chars.len();
    proof {
        assert(chars@.skip(0) =~= chars@);
        assert(Seq::<char>::empty().add(subst_rec(chars@, false, total@)) =~= subst_rec(
            chars@,
            false,
            total@,
        ));
    }
    while i < len
        invariant
            len == chars@.len(),
            0 <= i <= len,
            total@ == dec_digits(total_num as int),
            subst_template(chars@, total@) == out@.add(
                subst_rec(chars@.skip(i as int), esc, total@),
            ),
        decreases len - i,
    {
        let c = chars[i];
        let ghost rem = chars@.skip(i as int);
        let ghost rem1 = chars@.skip(i as int + 1);
        proof {
            assert(rem[0] == c);
            assert(rem.subrange(1, rem.len() as int) =~= rem1);
        }
        let ghost out0 = out@;
        if esc {
            let ghost piece = if c == '$' {
                seq!['$']
            } else if c == '+' {
                total@
            } else {
                seq!['$', c]
            };
            proof {
                assert(subst_rec(rem, true, total@) == piece.add(subst_rec(rem1, false, total@)));
            }
            if c == '$' {
                out.push('$');
                proof {
                    assert(out@ =~= out0.add(piece));
                }
            } else if c == '+' {
                let mut j: usize = 0;
                let tlen = total.len();
                while j < tlen
                    invariant
                        tlen == total@.len(),
                        0 <= j <= tlen,
                        out@ =~= out0.add(total@.take(j as int)),
                    decreases tlen - j,
                {
                    out.push(total[j]);
                    proof {
                        assert(out@ =~= out0.add(total@.take(j as int + 1)));
                    }
                    j += 1;
                }
                proof {
                    assert(total@.take(tlen as int) =~= total@);
                    assert(out@ =~= out0.add(piece));
                }
            } else {
                out.push('$');
                out.push(c);
                proof {
                    assert(out@ =~= out0.add(piece));
                }
            }
            esc = false;
            proof {
                assert(out@.add(subst_rec(rem1, false, total@)) =~= out0.add(
                    piece.add(subst_rec(rem1, false, total@)),
                ));
            }
        } else if c == '$' {
            esc = true;
            proof {
                assert(subst_rec(rem, false, total@) == subst_rec(rem1, true, total@));
            }
        } else {
            out.push(c);
            proof {
                assert(subst_rec(rem, false, total@) == seq![c].add(subst_rec(rem1, false, total@)));
                assert(out@ =~= out0.add(seq![c]));
                assert(out@.add(subst_rec(rem1, false, total@)) =~= out0.add(
                    seq![c].add(subst_rec(rem1, false, total@)),
                ));
            }
        }
        i += 1;
    }
    proof {
        assert(chars@.skip(len as int) =~= Seq::<char>::empty());
        assert(out@.add(Seq::<char>::empty()) =~= out@);
    }
    chars_string(&out)
}

/// Append a string's characters to a character buffer.
fn append_str(out: &mut Vec<char>, s: &str)
    ensures
        final(out)@ == old(out)@.add(s@),
{
    let cs = str_chars(s);
    let ghost out0 = out@;
    let mut i: usize = 0;
    let len = cs.len();
    while i < len
        invariant
            len == cs@.len(),
            cs@ == s@,
            0 <= i <= len,
            out@ =~= out0.add(cs@.take(i as int)),
        decreases len - i,
    {
        out.push(cs[i]);
        proof {
            assert(out@ =~= out0.add(cs@.take(i as int + 1)));
        }
        i += 1;
    }
    proof {
        assert(cs@.take(len as int) =~= cs@);
    }
}

/// Append a character buffer to another.
fn append_chars(out: &mut Vec<char>, s: &Vec<char>)
    ensures
        final(out)@ == old(out)@.add(s@),
{
    let ghost out0 = out@;
    let mut i: usize = 0;
    let len = s.len();
    while i < len
        invariant
            len == s@.len(),
            0 <= i <= len,
            out@ =~= out0.add(s@.take(i as int)),
        decreases len - i,
    {
        out.push(s[i]);
        proof {
            assert(out@ =~= out0.add(s@.take(i as int + 1)));
        }
        i += 1;
    }
    proof {
        assert(s@.take(len as int) =~= s@);
    }
}

/// `$`-escape substitution with the per-title placeholders: `$0` the full
/// prefixed name, `$1` the namespace name, `$2` the bare title text, `$@`
/// the item's index, `$+` the total count, `$$` a dollar sign.
pub open spec fn subst_title_rec(
    t: Seq<char>,
    esc: bool,
    full: Seq<char>,
    nsname: Seq<char>,
    pretty: Seq<char>,
    cur: Seq<char>,
    total: Seq<char>,
) -> Seq<char>
    decreases t.len(),
{
    if t.len() == 0 {
        Seq::empty()
    } else {
        let c = t[0];
        let rest = t.subrange(1, t.len() as int);
        if esc {
            let piece = if c == '$' {
                seq!['$']
            } else if c == '0' {
                full
            } else if c == '1' {
                nsname
            } else if c == '2' {
                pretty
            } else if c == '@' {
                cur
            } else if c == '+' {
                total
            } else {
                seq!['$', c]
            };
            piece.add(subst_title_rec(rest, false, full, nsname, pretty, cur, total))
        } else if c == '$' {
            subst_title_rec(rest, true, full, nsname, pretty, cur, total)
        } else {
            seq![c].add(subst_title_rec(rest, false, full, nsname, pretty, cur, total))
        }
    }
}

/// Substitute one title's names and position into a `$`-escape template.
/// The full and namespace names are looked up by the caller; the
/// substitution itself is pure.
pub fn substitute_str_template_with_title(
    template: &str,
    full_name: &str,
    ns_name: &str,
    pretty: &str,
    current_num: u64,
    total_num: u64,
) -> (r: String)
    ensures
        r@ == subst_title_rec(
            template@,
            false,
            full_name@,
            ns_name@,
            pretty@,
            dec_digits(current_num as int),
            dec_digits(total_num as int),
        ),
{
    let cur = u64_to_dec(current_num);
    let total = u64_to_dec(total_num);
    let chars = str_chars(template);
    let mut out: Vec<char> = Vec::new();
    let mut esc = false;
    let mut i: usize = 0;
    let len = chars.len();
    let ghost fu = full_name@;
    let ghost nn = ns_name@;
    let ghost pr = pretty@;
    proof {
        assert(chars@.skip(0) =~= chars@);
        assert(Seq::<char>::empty().add(
            subst_title_rec(chars@, false, fu, nn, pr, cur@, total@),
        ) =~= subst_title_rec(chars@, false, fu, nn, pr, cur@, total@));
    }
    while i < len
        invariant
            len == chars@.len(),
            0 <= i <= len,
            cur@ == dec_digits(current_num as int),
            total@ == dec_digits(total_num as int),
            fu == full_name@,
            nn == ns_name@,
            pr == pretty@,
            subst_title_rec(chars@, false, fu, nn, pr, cur@, total@) == out@.add(
                subst_title_rec(chars@.skip(i as int), esc, fu, nn, pr, cur@, total@),
            ),
        decreases len - i,
    {
        let c = chars[i];
        let ghost rem = chars@.skip(i as int);
        let ghost rem1 = chars@.skip(i as int + 1);
        proof {
            assert(rem[0] == c);
            assert(rem.subrange(1, rem.len() as int) =~= rem1);
        }
        let ghost out0 = out@;
        if esc {
            let ghost piece = if c == '$' {
                seq!['$']
            } else if c == '0' {
                fu
            } else if c == '1' {
                nn
            } else if c == '2' {
                pr
            } else if c == '@' {
                cur@
            } else if c == '+' {
                total@
            } else {
                seq!['$', c]
            };
            proof {
                assert(subst_title_rec(rem, true, fu, nn, pr, cur@, total@) == piece.add(
                    subst_title_rec(rem1, false, fu, nn, pr, cur@, total@),
                ));
            }
            if c == '$' {
                out.push('$');
                proof {
                    assert(out@ =~= out0.add(piece));
                }
            } else if c == '0' {
                append_str(&mut out, full_name);
            } else if c == '1' {
                append_str(&mut out, ns_name);
            } else if c == '2' {
                append_str(&mut out, pretty);
            } else if c == '@' {
                append_chars(&mut out, &cur);
            } else if c == '+' {
                append_chars(&mut out, &total);
            } else {
                out.push('$');
                out.push(c);
                proof {
                    assert(out@ =~= out0.add(piece));
                }
            }
            esc = false;
            proof {
                assert(out@ == out0.add(piece));
                assert(out@.add(subst_title_rec(rem1, false, fu, nn, pr, cur@, total@)) =~= out0
                    .add(piece.add(subst_title_rec(rem1, false, fu, nn, pr, cur@, total@))));
            }
        } else if c == '$' {
            esc = true;
            proof {
                assert(subst_title_rec(rem, false, fu, nn, pr, cur@, total@) == subst_title_rec(
                    rem1,
                    true,
                    fu,
                    nn,
                    pr,
                    cur@,
                    total@,
                ));
            }
        } else {
            out.push(c);
            proof {
                assert(subst_title_rec(rem, false, fu, nn, pr, cur@, total@) == seq![c].add(
                    subst_title_rec(rem1, false, fu, nn, pr, cur@, total@),
                ));
                assert(out@ =~= out0.add(seq![c]));
                assert(out@.add(subst_title_rec(rem1, false, fu, nn, pr, cur@, total@)) =~= out0
                    .add(seq![c].add(subst_title_rec(rem1, false, fu, nn, pr, cur@, total@))));
            }
        }
        i += 1;
    }
    proof {
        assert(chars@.skip(len as int) =~= Seq::<char>::empty());
        assert(out@.add(Seq::<char>::empty()) =~= out@);
    }
    chars_string(&out)
}

/// How a finished solve is described to readers of the page history.
pub open spec fn summary_spec(count: Option<int>) -> Seq<char> {
    match count {
        Option::None => "Update query: failure"@,
        Option::Some(n) => if n == 0 {
            "Update query: empty"@
        } else if n == 1 {
            "Update query: 1 result"@
        } else {
            "Update query: "@.add(dec_digits(n)).add(" results"@)
        },
    }
}

/// The edit summary for a solve that produced `count` titles, or failed.
pub fn make_edit_summary(count: Option<u64>) -> (r: String)
    ensures
        r@ == summary_spec(
            match count {
                Option::Some(n) => Option::Some(n as int),
                Option::None => Option::None,
            },
        ),
{
    match count {
        Option::None => "Update query: failure".to_owned(),
        Option::Some(n) => {
            if n == 0 {
                "Update query: empty".to_owned()
            } else if n == 1 {
                "Update query: 1 result".to_owned()
            } else {
                let mut out: Vec<char> = Vec::new();
                append_str(&mut out, "Update query: ");
                let digits = u64_to_dec(n);
                append_chars(&mut out, &digits);
                append_str(&mut out, " results");
                proof {
                    assert(Seq::<char>::empty().add("Update query: "@) =~= "Update query: "@);
                }
                chars_string(&out)
            }
        },
    }
}

/// How a finished solve went, for the header's status field.
#[derive(Clone, Copy, PartialEq, Eq, Structural, Debug)]
pub enum WriteStatus {
    Success,
    Timeout,
    Parse,
    Solve,
}

impl WriteStatus {
    /// The status word written into the page header.
    pub fn text(&self) -> (r: &'static str)
        ensures
            self is Success ==> r@ == "success"@,
            self is Timeout ==> r@ == "timeout"@,
            self is Parse ==> r@ == "parse"@,
            self is Solve ==> r@ == "runtime"@,
    {
        match self {
            WriteStatus::Success => "success",
            WriteStatus::Timeout => "timeout",
            WriteStatus::Parse => "parse",
            WriteStatus::Solve => "runtime",
        }
    }
}

/// The page header: a substituted header template carrying the task id
/// and the solve's status.
pub open spec fn header_content_spec(header: Seq<char>, id: int, status: Seq<char>) -> Seq<char> {
    "<noinclude>{{subst:"@.add(header).add("|taskid="@).add(int_digits(id)).add("|status="@).add(
        status,
    ).add("}}</noinclude>"@)
}

/// Build the page header line.
pub fn make_header_content(header_template_name: &str, task_id: i64, status: &str) -> (r: String)
    ensures
        r@ == header_content_spec(header_template_name@, task_id as int, status@),
{
    let mut out: Vec<char> = Vec::new();
    append_str(&mut out, "<noinclude>{{subst:");
    append_str(&mut out, header_template_name);
    append_str(&mut out, "|taskid=");
    let digits = i64_to_dec(task_id);
    append_chars(&mut out, &digits);
    append_str(&mut out, "|status=");
    append_str(&mut out, status);
    append_str(&mut out, "}}</noinclude>");
    proof {
        assert(Seq::<char>::empty().add("<noinclude>{{subst:"@) =~= "<noinclude>{{subst:"@);
    }
    chars_string(&out)
}

/// Whether `p` is a prefix of `s`.
pub open spec fn starts_with_spec(s: Seq<char>, p: Seq<char>) -> bool {
    p.len() <= s.len() && s.subrange(0, p.len() as int) == p
}

/// The first position where `p` occurs inside `s`, if any.
pub open spec fn find_sub(s: Seq<char>, p: Seq<char>) -> Option<int>
    decreases s.len(),
{
    if p.len() > s.len() {
        Option::None
    } else if starts_with_spec(s, p) {
        Option::Some(0)
    } else if s.len() == p.len() {
        Option::None
    } else {
        match find_sub(s.subrange(1, s.len() as int), p) {
            Option::Some(i) => Option::Some(i + 1),
            Option::None => Option::None,
        }
    }
}

/// Whether `p` occurs in `s` at position `i`.
pub open spec fn match_at(s: Seq<char>, p: Seq<char>, i: int) -> bool {
    0 <= i && i + p.len() <= s.len() && s.subrange(i, i + p.len() as int) == p
}

/// The first occurrence really is first, and occurs.
pub proof fn lemma_find_sub(s: Seq<char>, p: Seq<char>)
    ensures
        match find_sub(s, p) {
            Option::Some(i) => match_at(s, p, i) && forall|j: int| 0 <= j < i ==> !match_at(s, p, j),
            Option::None => forall|j: int| !match_at(s, p, j),
        },
    decreases s.len(),
{
    if p.len() > s.len() {
        assert forall|j: int| !match_at(s, p, j) by {}
    } else if starts_with_spec(s, p) {
    } else {
        let rest = s.subrange(1, s.len() as int);
        if s.len() == p.len() {
            assert forall|j: int| !match_at(s, p, j) by {
                if match_at(s, p, j) {
                    assert(j == 0);
                    assert(s.subrange(0, p.len() as int) =~= s.subrange(j, j + p.len() as int));
                }
            }
        } else {
            lemma_find_sub(rest, p);
            assert forall|j: int| 1 <= j && match_at(s, p, j) implies match_at(rest, p, j - 1) by {
                assert(rest.subrange(j - 1, j - 1 + p.len() as int) =~= s.subrange(
                    j,
                    j + p.len() as int,
                ));
            }
            assert forall|j: int| 0 <= j && match_at(rest, p, j) implies match_at(s, p, j + 1) by {
                assert(s.subrange(j + 1, j + 1 + p.len() as int) =~= rest.subrange(
                    j,
                    j + p.len() as int,
                ));
            }
            match find_sub(rest, p) {
                Option::Some(i) => {
                    assert(match_at(s, p, i + 1));
                    assert forall|j: int| 0 <= j < i + 1 implies !match_at(s, p, j) by {
                        if j == 0 {
                            if match_at(s, p, 0) {
                                assert(s.subrange(0, p.len() as int) == p);
                            }
                        } else {
                            if match_at(s, p, j) {
                                assert(match_at(rest, p, j - 1));
                            }
                        }
                    }
                },
                Option::None => {
                    assert forall|j: int| !match_at(s, p, j) by {
                        if match_at(s, p, j) {
                            if j == 0 {
                                assert(s.subrange(0, p.len() as int) == p);
                            } else {
                                assert(match_at(rest, p, j - 1));
                            }
                        }
                    }
                },
            }
        }
    }
}

/// Whether one character buffer starts with another.
fn starts_with_vec(s: &Vec<char>, p: &Vec<char>) -> (r: bool)
    ensures
        r == starts_with_spec(s@, p@),
{
    let plen = p.len();
    if plen > s.len() {
        return false;
    }
    let mut i: usize = 0;
    while i < plen
        invariant
            plen == p@.len(),
            plen <= s@.len(),
            0 <= i <= plen,
            forall|k: int| 0 <= k < i ==> s@[k] == p@[k],
        decreases plen - i,
    {
        if s[i] != p[i] {
            proof {
                if starts_with_spec(s@, p@) {
                    assert(s@.subrange(0, plen as int)[i as int] == p@[i as int]);
                }
            }
            return false;
        }
        i += 1;
    }
    proof {
        assert(s@.subrange(0, plen as int) =~= p@);
    }
    true
}

/// Find the first occurrence of `p` inside `s`.
fn find_sub_vec(s: &Vec<char>, p: &Vec<char>) -> (r: Option<usize>)
    requires
        p@.len() > 0,
    ensures
        match r {
            Option::Some(i) => find_sub(s@, p@) == Option::Some(i as int),
            Option::None => find_sub(s@, p@) is None,
        },
{
    proof {
        lemma_find_sub(s@, p@);
    }
    let plen = p.len();
    let slen = s.len();
    if plen > slen {
        return Option::None;
    }
    let mut i: usize = 0;
    while i <= slen - plen
        invariant
            plen == p@.len(),
            slen == s@.len(),
            plen <= slen,
            0 <= i <= slen - plen + 1,
            forall|j: int| 0 <= j < i ==> !match_at(s@, p@, j),
            match find_sub(s@, p@) {
                Option::Some(k) => match_at(s@, p@, k) && forall|j: int|
                    0 <= j < k ==> !match_at(s@, p@, j),
                Option::None => forall|j: int| !match_at(s@, p@, j),
            },
        decreases slen - plen - i + 1,
    {
        let mut k: usize = 0;
        let mut hit = true;
        while k < plen
            invariant_except_break
                plen == p@.len(),
                slen == s@.len(),
                plen <= slen,
                0 <= i <= slen - plen,
                0 <= k <= plen,
                hit == (forall|m: int| 0 <= m < k ==> s@[i + m] == p@[m]),
            ensures
                hit == (forall|m: int| 0 <= m < plen ==> s@[i + m] == p@[m]),
            decreases plen - k,
        {
            if s[i + k] != p[k] {
                hit = false;
                proof {
                    assert(s@[i as int + k as int] != p@[k as int]);
                }
                break;
            }
            k += 1;
        }
        if hit {
            proof {
                assert(s@.subrange(i as int, i as int + p@.len() as int) =~= p@);
                assert(match_at(s@, p@, i as int));
                match find_sub(s@, p@) {
                    Option::Some(m) => {
                        if m < i {
                            assert(!match_at(s@, p@, m));
                        }
                        if m > i {
                            assert(!match_at(s@, p@, i as int));
                        }
                    },
                    Option::None => {
                        assert(!match_at(s@, p@, i as int));
                    },
                }
            }
            return Option::Some(i);
        }
        proof {
            if match_at(s@, p@, i as int) {
                let m = choose|m: int| 0 <= m < plen && s@[i + m] != p@[m];
                assert(s@.subrange(i as int, i as int + p@.len() as int)[m] == p@[m]);
            }
        }
        i += 1;
    }
    proof {
        if find_sub(s@, p@) is Some {
            let m = find_sub(s@, p@).unwrap();
            assert(match_at(s@, p@, m));
            assert(!match_at(s@, p@, m));
        }
    }
    Option::None
}

/// The characters of a string with its leading whitespace removed.
pub uninterp spec fn trim_start_of(s: Seq<char>) -> Seq<char>;

/// Relies on str::trim_start: the result depends on the characters alone.
#[verifier::external_body]
fn trim_start_w(s: &str) -> (r: String)
    ensures
        r@ == trim_start_of(s@),
{
    s.trim_start().to_owned()
}

/// The part of an existing page that survives a header rewrite: when the
/// page (ignoring leading whitespace) starts with `<noinclude>` and a
/// closing `</noinclude>` exists, everything after the first closing tag;
/// otherwise the whole page.
pub open spec fn body_after_header_spec(orig: Seq<char>) -> Seq<char> {
    if starts_with_spec(trim_start_of(orig), "<noinclude>"@) {
        match find_sub(orig, "</noinclude>"@) {
            Option::Some(i) => orig.skip(i + "</noinclude>"@.len() as int),
            Option::None => orig,
        }
    } else {
        orig
    }
}

/// The part of an existing page to carry over under a fresh header.
pub fn body_after_header(orig: &str) -> (r: String)
    ensures
        r@ == body_after_header_spec(orig@),
{
    let trimmed = trim_start_w(orig);
    let tc = str_chars(trimmed.as_str());
    let pre = str_chars("<noinclude>");
    if !starts_with_vec(&tc, &pre) {
        return orig.to_owned();
    }
    let oc = str_chars(orig);
    let pat = str_chars("</noinclude>");
    proof {
        reveal_strlit("</noinclude>");
    }
    match find_sub_vec(&oc, &pat) {
        Option::Some(off) => {
            proof {
                lemma_find_sub(oc@, pat@);
            }
            let mut out: Vec<char> = Vec::new();
            let len = oc.len();
            let plen = pat.len();
            proof {
                assert(off as int + plen as int <= len as int);
            }
            let mut j: usize = off + plen;
            while j < len
                invariant
                    len == oc@.len(),
                    0 <= j <= len,
                    out@ =~= oc@.subrange((off + pat@.len()) as int, j as int),
                    off + pat@.len() <= j,
                decreases len - j,
            {
                out.push(oc[j]);
                proof {
                    assert(out@ =~= oc@.subrange((off + pat@.len()) as int, j as int + 1));
                }
                j += 1;
            }
            proof {
                assert(oc@.subrange((off + pat@.len()) as int, len as int) =~= oc@.skip(
                    (off + pat@.len()) as int,
                ));
            }
            chars_string(&out)
        },
        Option::None => orig.to_owned(),
    }
}

} // verus!
