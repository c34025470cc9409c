//! Document records and the registry the ranker consumes.
//!
//! A registry is a finalized collection of document records; a record
//! references other records of the same registry through stable index
//! keys, so the collection can be persisted and reloaded without raw
//! pointers.

use vstd::arithmetic::div_mod::lemma_fundamental_div_mod;
use vstd::prelude::*;

verus! {

/// A stable reference to a document record: its index in the registry.
#[derive(Clone, Copy, Debug, PartialEq, Eq, Structural)]
pub struct SiteKey {
    idx: usize,
}

impl SiteKey {
    /// The registry index the key names.
    pub closed spec fn spec_idx(self) -> int {
        self.idx as int
    }

    /// The key for the record at index `idx`.
    pub fn new(idx: usize) -> (r: SiteKey)
        ensures
            r.spec_idx() == idx,
    {
        SiteKey { idx }
    }

    /// The registry index the key names.
    pub fn index(&self) -> (r: usize)
        ensures
            r == self.spec_idx(),
    {
        self.idx
    }
}

/// Tracked information about a document: its address, its title, and
/// references to the documents it links to.
#[derive(Clone, Debug, PartialEq, Eq)]
pub struct SiteLog {
    pub url: String,
    pub title: String,
    pub connections: Vec<SiteKey>,
}

/// Record equality by content.
pub open spec fn site_eq(a: SiteLog, b: SiteLog) -> bool {
    a.url@ == b.url@ && a.title@ == b.title@ && a.connections@ == b.connections@
}

/// Every connection of every record points into the registry.
pub open spec fn registry_wf(sites: Seq<SiteLog>) -> bool {
    forall|i: int, e: int|
        0 <= i < sites.len() && 0 <= e < sites[i].connections@.len() ==> 0 <= (
        #[trigger] sites[i].connections@[e]).spec_idx() < sites.len()
}

/// A content-equal copy of a string.
fn clone_string(s: &String) -> (r: String)
    ensures
        r@ == s@,
{
    s.clone()
}

/// A content-equal copy of a record.
pub fn clone_site(s: &SiteLog) -> (r: SiteLog)
    ensures
        site_eq(r, *s),
{
    let url = clone_string(&s.url);
    let title = clone_string(&s.title);
    let mut connections: Vec<SiteKey> = Vec::new();
    let mut i: usize = 0;
    while i < s.connections.len()
        invariant
            0 <= i <= s.connections@.len(),
            connections@ == s.connections@.take(i as int),
        decreases s.connections@.len() - i,
    {
        connections.push(s.connections[i]);
        proof {
            assert(connections@ =~= s.connections@.take(i + 1 as int));
        }
        i = i + 1;
    }
    proof {
        assert(s.connections@.take(s.connections@.len() as int) =~= s.connections@);
    }
    SiteLog { url, title, connections }
}

// ---------------------------------------------------------------------
// The persisted registry format.
//
// A record is three lines: the escaped url, the escaped title, and the
// connection indices in decimal, each followed by a comma.  A backslash
// escapes itself and the line break, so any url or title round-trips.
// ---------------------------------------------------------------------
/// The escape sequence for one character of a url or title.
pub open spec fn esc_char(c: char) -> Seq<char> {
    if c == '\\' || c == '\n' {
        seq!['\\', c]
    } else {
        seq![c]
    }
}

/// A whole string, escaped.
pub open spec fn esc_str(s: Seq<char>) -> Seq<char>
    decreases s.len(),
{
    if s.len() == 0 {
        Seq::empty()
    } else {
        esc_str(s.drop_last()) + esc_char(s.last())
    }
}

/// The decimal digit for a value below ten.
pub open spec fn digit_char(d: int) -> char {
    if d == 0 {
        '0'
    } else if d == 1 {
        '1'
    } else if d == 2 {
        '2'
    } else if d == 3 {
        '3'
    } else if d == 4 {
        '4'
    } else if d == 5 {
        '5'
    } else if d == 6 {
        '6'
    } else if d == 7 {
        '7'
    } else if d == 8 {
        '8'
    } else {
        '9'
    }
}

/// The value of a decimal digit, or minus one for any other character.
pub open spec fn digit_val(c: char) -> int {
    if c == '0' {
        0
    } else if c == '1' {
        1
    } else if c == '2' {
        2
    } else if c == '3' {
        3
    } else if c == '4' {
        4
    } else if c == '5' {
        5
    } else if c == '6' {
        6
    } else if c == '7' {
        7
    } else if c == '8' {
        8
    } else if c == '9' {
        9
    } else {
        -1
    }
}

/// The decimal rendering of a non-negative number.
pub open spec fn dec_digits(n: int) -> Seq<char>
    decreases n,
{
    if n < 10 {
        seq![digit_char(n)]
    } else {
        dec_digits(n / 10).push(digit_char(n % 10))
    }
}

/// The connection indices, each rendered in decimal and closed by a
/// comma.
pub open spec fn enc_conns(ks: Seq<SiteKey>) -> Seq<char>
    decreases ks.len(),
{
    if ks.len() == 0 {
        Seq::empty()
    } else {
        enc_conns(ks.drop_last()) + dec_digits(ks.last().spec_idx()) + seq![',']
    }
}

/// One record: url line, title line, connections line.
pub open spec fn enc_site(s: SiteLog) -> Seq<char> {
    esc_str(s.url@) + seq!['\n'] + esc_str(s.title@) + seq!['\n'] + enc_conns(s.connections@)
        + seq!['\n']
}

/// The whole registry, record after record.
pub open spec fn enc_registry(sites: Seq<SiteLog>) -> Seq<char>
    decreases sites.len(),
{
    if sites.len() == 0 {
        Seq::empty()
    } else {
        enc_registry(sites.drop_last()) + enc_site(sites.last())
    }
}

/// Reads one escaped field up to its closing line break; the result is
/// the unescaped field and the remaining input.
pub open spec fn parse_field(s: Seq<char>) -> Option<(Seq<char>, Seq<char>)>
    decreases s.len(),
{
    if s.len() == 0 {
        None
    } else if s[0] == '\n' {
        Some((Seq::empty(), s.skip(1)))
    } else if s[0] == '\\' {
        if s.len() >= 2 {
            match parse_field(s.skip(2)) {
                Some(p) => Some((seq![s[1]] + p.0, p.1)),
                None => None,
            }
        } else {
            None
        }
    } else {
        match parse_field(s.skip(1)) {
            Some(p) => Some((seq![s[0]] + p.0, p.1)),
            None => None,
        }
    }
}

/// Reads a comma-closed decimal list; `acc` holds the digits read of
/// the current number and `started` whether it has any.
pub open spec fn parse_conns_rec(s: Seq<char>, acc: int, started: bool) -> Option<Seq<int>>
    decreases s.len(),
{
    if s.len() == 0 {
        if started {
            None
        } else {
            Some(Seq::empty())
        }
    } else if s[0] == ',' {
        if started {
            match parse_conns_rec(s.skip(1), 0, false) {
                Some(vs) => Some(seq![acc] + vs),
                None => None,
            }
        } else {
            None
        }
    } else if digit_val(s[0]) >= 0 {
        parse_conns_rec(s.skip(1), acc * 10 + digit_val(s[0]), true)
    } else {
        None
    }
}

/// The parsed content of one record: url, title, connection indices.
pub open spec fn parse_site(s: Seq<char>) -> Option<((Seq<char>, Seq<char>, Seq<int>), Seq<char>)> {
    match parse_field(s) {
        Some((url, r1)) => match parse_field(r1) {
            Some((title, r2)) => match parse_field(r2) {
                Some((cline, r3)) => match parse_conns_rec(cline, 0, false) {
                    Some(ks) => Some(((url, title, ks), r3)),
                    None => None,
                },
                None => None,
            },
            None => None,
        },
        None => None,
    }
}

/// All records of the input, with a fuel bound on their count.
pub open spec fn parse_registry_rec(s: Seq<char>, fuel: nat) -> Option<
    Seq<(Seq<char>, Seq<char>, Seq<int>)>,
>
    decreases fuel,
{
    if s.len() == 0 {
        Some(Seq::empty())
    } else if fuel == 0 {
        None
    } else {
        match parse_site(s) {
            Some((m, rest)) => match parse_registry_rec(rest, (fuel - 1) as nat) {
                Some(ms) => Some(seq![m] + ms),
                None => None,
            },
            None => None,
        }
    }
}

/// The records named by an encoded registry.
pub open spec fn parse_registry(s: Seq<char>) -> Option<Seq<(Seq<char>, Seq<char>, Seq<int>)>> {
    parse_registry_rec(s, s.len())
}

/// The content model of a record, for stating the round trip.
pub open spec fn site_model(s: SiteLog) -> (Seq<char>, Seq<char>, Seq<int>) {
    (s.url@, s.title@, Seq::new(s.connections@.len(), |i: int| s.connections@[i].spec_idx()))
}

/// An escaped string starts with the escape of its first character.
proof fn lemma_esc_head(s: Seq<char>)
    requires
        s.len() > 0,
    ensures
        esc_str(s) == esc_char(s[0]) + esc_str(s.skip(1)),
    decreases s.len(),
{
    if s.len() == 1 {
        assert(s.drop_last() =~= Seq::<char>::empty());
        assert(s.skip(1) =~= Seq::<char>::empty());
        assert(esc_str(s) =~= esc_char(s[0]) + esc_str(s.skip(1)));
    } else {
        lemma_esc_head(s.drop_last());
        assert(s.skip(1).drop_last() =~= s.drop_last().skip(1));
        assert(s.skip(1).last() == s.last());
        assert(s.drop_last()[0] == s[0]);
        assert(esc_str(s) =~= esc_char(s[0]) + esc_str(s.skip(1)));
    }
}

/// Parsing the escaped form of a field gives the field back.
proof fn lemma_parse_field_round(s: Seq<char>, rest: Seq<char>)
    ensures
        parse_field(esc_str(s) + seq!['\n'] + rest) == Some((s, rest)),
    decreases s.len(),
{
    let input = esc_str(s) + seq!['\n'] + rest;
    if s.len() == 0 {
        assert(input =~= seq!['\n'] + rest);
        assert(input[0] == '\n');
        assert(input.skip(1) =~= rest);
    } else {
        lemma_esc_head(s);
        lemma_parse_field_round(s.skip(1), rest);
        let tail_input = esc_str(s.skip(1)) + seq!['\n'] + rest;
        if s[0] == '\\' || s[0] == '\n' {
            assert(input =~= seq!['\\', s[0]] + tail_input);
            assert(input[0] == '\\' && input.len() >= 2 && input[1] == s[0]);
            assert(input.skip(2) =~= tail_input);
            assert(seq![s[0]] + s.skip(1) =~= s);
        } else {
            assert(input =~= seq![s[0]] + tail_input);
            assert(input[0] == s[0]);
            assert(input.skip(1) =~= tail_input);
            assert(seq![s[0]] + s.skip(1) =~= s);
        }
    }
}

/// A string with no escape-worthy character is its own escaped form.
proof fn lemma_esc_plain(s: Seq<char>)
    requires
        forall|i: int| 0 <= i < s.len() ==> s[i] != '\\' && s[i] != '\n',
    ensures
        esc_str(s) == s,
    decreases s.len(),
{
    if s.len() > 0 {
        lemma_esc_plain(s.drop_last());
        assert(esc_str(s) =~= s);
    }
}

/// The decimal rendering holds digits alone.
proof fn lemma_dec_digits_are_digits(n: int)
    requires
        n >= 0,
    ensures
        dec_digits(n).len() >= 1,
        forall|i: int| 0 <= i < dec_digits(n).len() ==> digit_val(#[trigger] dec_digits(n)[i]) >= 0,
    decreases n,
{
    if n < 10 {
    } else {
        lemma_dec_digits_are_digits(n / 10);
        assert forall|i: int|
            0 <= i < dec_digits(n).len() implies digit_val(#[trigger] dec_digits(n)[i]) >= 0 by {
            if i < dec_digits(n / 10).len() {
                assert(dec_digits(n)[i] == dec_digits(n / 10)[i]);
            } else {
                assert(dec_digits(n)[i] == digit_char(n % 10));
            }
        }
    }
}

/// The number a run of digits accumulates onto `acc`.
pub open spec fn acc_fold(ds: Seq<char>, acc: int) -> int
    decreases ds.len(),
{
    if ds.len() == 0 {
        acc
    } else {
        acc_fold(ds.skip(1), acc * 10 + digit_val(ds[0]))
    }
}

/// Accumulating one more digit multiplies by ten and adds it.
proof fn lemma_acc_fold_push(ds: Seq<char>, c: char, acc: int)
    ensures
        acc_fold(ds.push(c), acc) == acc_fold(ds, acc) * 10 + digit_val(c),
    decreases ds.len(),
{
    if ds.len() == 0 {
        assert(ds.push(c)[0] == c);
        assert(ds.push(c).skip(1) =~= ds);
        assert(acc_fold(ds.push(c), acc) == acc_fold(ds, acc * 10 + digit_val(c)));
        assert(acc_fold(ds, acc * 10 + digit_val(c)) == acc * 10 + digit_val(c));
        assert(acc_fold(ds, acc) == acc);
    } else {
        assert(ds.push(c)[0] == ds[0]);
        assert(ds.push(c).skip(1) =~= ds.skip(1).push(c));
        assert(acc_fold(ds.push(c), acc) == acc_fold(
            ds.skip(1).push(c),
            acc * 10 + digit_val(ds[0]),
        ));
        lemma_acc_fold_push(ds.skip(1), c, acc * 10 + digit_val(ds[0]));
        assert(acc_fold(ds, acc) == acc_fold(ds.skip(1), acc * 10 + digit_val(ds[0])));
    }
}

/// Folding the decimal rendering of a number recovers the number.
proof fn lemma_fold_dec_digits(n: int)
    requires
        n >= 0,
    ensures
        acc_fold(dec_digits(n), 0) == n,
    decreases n,
{
    if n < 10 {
        let ds = dec_digits(n);
        assert(ds == seq![digit_char(n)]);
        let tail = ds.skip(1);
        assert(tail.len() == 0);
        assert(acc_fold(ds, 0) == acc_fold(tail, digit_val(digit_char(n))));
        assert(acc_fold(tail, digit_val(digit_char(n))) == digit_val(digit_char(n)));
    } else {
        lemma_fold_dec_digits(n / 10);
        lemma_acc_fold_push(dec_digits(n / 10), digit_char(n % 10), 0);
        lemma_fundamental_div_mod(n, 10);
    }
}

/// Reading a run of digits advances the accumulator by their fold.
proof fn lemma_parse_digits(ds: Seq<char>, t: Seq<char>, acc: int, started: bool)
    requires
        forall|i: int| 0 <= i < ds.len() ==> digit_val(#[trigger] ds[i]) >= 0,
    ensures
        parse_conns_rec(ds + t, acc, started) == parse_conns_rec(
            t,
            acc_fold(ds, acc),
            started || ds.len() > 0,
        ),
    decreases ds.len(),
{
    if ds.len() == 0 {
        assert(ds + t =~= t);
    } else {
        let input = ds + t;
        assert(input[0] == ds[0]);
        assert(digit_val(input[0]) >= 0);
        assert(input[0] != ',');
        assert(input.skip(1) =~= ds.skip(1) + t);
        lemma_parse_digits(ds.skip(1), t, acc * 10 + digit_val(ds[0]), true);
    }
}

/// The connection list starts with its first rendered index.
proof fn lemma_enc_conns_head(ks: Seq<SiteKey>)
    requires
        ks.len() > 0,
    ensures
        enc_conns(ks) == dec_digits(ks[0].spec_idx()) + seq![','] + enc_conns(ks.skip(1)),
    decreases ks.len(),
{
    if ks.len() == 1 {
        assert(ks.drop_last() =~= Seq::<SiteKey>::empty());
        assert(ks.skip(1) =~= Seq::<SiteKey>::empty());
        assert(enc_conns(ks) =~= dec_digits(ks[0].spec_idx()) + seq![','] + enc_conns(ks.skip(1)));
    } else {
        lemma_enc_conns_head(ks.drop_last());
        assert(ks.skip(1).drop_last() =~= ks.drop_last().skip(1));
        assert(ks.skip(1).last() == ks.last());
        assert(ks.drop_last()[0] == ks[0]);
        assert(enc_conns(ks) =~= dec_digits(ks[0].spec_idx()) + seq![','] + enc_conns(ks.skip(1)));
    }
}

/// The rendered connection list holds digits and commas alone.
proof fn lemma_enc_conns_plain(ks: Seq<SiteKey>)
    ensures
        forall|i: int|
            0 <= i < enc_conns(ks).len() ==> (#[trigger] enc_conns(ks)[i]) != '\\' && enc_conns(
                ks,
            )[i] != '\n',
    decreases ks.len(),
{
    if ks.len() > 0 {
        lemma_enc_conns_plain(ks.drop_last());
        lemma_dec_digits_are_digits(ks.last().spec_idx());
        let pre = enc_conns(ks.drop_last());
        let mid = dec_digits(ks.last().spec_idx());
        assert forall|i: int|
            0 <= i < enc_conns(ks).len() implies (#[trigger] enc_conns(ks)[i]) != '\\' && enc_conns(
            ks,
        )[i] != '\n' by {
            if i < pre.len() {
                assert(enc_conns(ks)[i] == pre[i]);
            } else if i < pre.len() + mid.len() {
                assert(enc_conns(ks)[i] == mid[i - pre.len()]);
                assert(digit_val(mid[i - pre.len()]) >= 0);
            } else {
                assert(enc_conns(ks)[i] == ',');
            }
        }
    }
}

/// Parsing the rendered connection list gives the indices back.
proof fn lemma_conns_round(ks: Seq<SiteKey>)
    ensures
        parse_conns_rec(enc_conns(ks), 0, false) == Some(
            Seq::new(ks.len(), |i: int| ks[i].spec_idx()),
        ),
    decreases ks.len(),
{
    if ks.len() == 0 {
        assert(Seq::new(0, |i: int| ks[i].spec_idx()) =~= Seq::<int>::empty());
    } else {
        lemma_enc_conns_head(ks);
        let k0 = ks[0].spec_idx();
        lemma_dec_digits_are_digits(k0);
        let t = seq![','] + enc_conns(ks.skip(1));
        assert(enc_conns(ks) =~= dec_digits(k0) + t);
        lemma_parse_digits(dec_digits(k0), t, 0, false);
        lemma_fold_dec_digits(k0);
        assert(t[0] == ',');
        assert(t.skip(1) =~= enc_conns(ks.skip(1)));
        lemma_conns_round(ks.skip(1));
        assert(seq![k0] + Seq::new(ks.skip(1).len(), |i: int| ks.skip(1)[i].spec_idx()) =~= Seq::new(
            ks.len(),
            |i: int| ks[i].spec_idx(),
        ));
    }
}

/// Parsing the encoding of one record gives its content back.
proof fn lemma_site_round(s: SiteLog, rest: Seq<char>)
    ensures
        parse_site(enc_site(s) + rest) == Some((site_model(s), rest)),
{
    let r2 = enc_conns(s.connections@) + seq!['\n'] + rest;
    let r1 = esc_str(s.title@) + seq!['\n'] + r2;
    assert(enc_site(s) + rest =~= esc_str(s.url@) + seq!['\n'] + r1);
    lemma_parse_field_round(s.url@, r1);
    lemma_parse_field_round(s.title@, r2);
    lemma_enc_conns_plain(s.connections@);
    lemma_esc_plain(enc_conns(s.connections@));
    lemma_parse_field_round(enc_conns(s.connections@), rest);
    lemma_conns_round(s.connections@);
}

/// The encoded registry starts with its first encoded record.
proof fn lemma_enc_registry_head(sites: Seq<SiteLog>)
    requires
        sites.len() > 0,
    ensures
        enc_registry(sites) == enc_site(sites[0]) + enc_registry(sites.skip(1)),
    decreases sites.len(),
{
    if sites.len() == 1 {
        assert(sites.drop_last() =~= Seq::<SiteLog>::empty());
        assert(sites.skip(1) =~= Seq::<SiteLog>::empty());
        assert(enc_registry(sites) =~= enc_site(sites[0]) + enc_registry(sites.skip(1)));
    } else {
        lemma_enc_registry_head(sites.drop_last());
        assert(sites.skip(1).drop_last() =~= sites.drop_last().skip(1));
        assert(sites.skip(1).last() == sites.last());
        assert(sites.drop_last()[0] == sites[0]);
        assert(enc_registry(sites) =~= enc_site(sites[0]) + enc_registry(sites.skip(1)));
    }
}

/// An encoded registry is at least as long as its record count.
proof fn lemma_enc_registry_len(sites: Seq<SiteLog>)
    ensures
        enc_registry(sites).len() >= sites.len(),
    decreases sites.len(),
{
    if sites.len() > 0 {
        lemma_enc_registry_len(sites.drop_last());
    }
}

/// Parsing an encoded registry under enough fuel gives every record's
/// content back.
proof fn lemma_registry_rec_round(sites: Seq<SiteLog>, fuel: nat)
    requires
        fuel >= sites.len(),
    ensures
        parse_registry_rec(enc_registry(sites), fuel) == Some(
            Seq::new(sites.len(), |i: int| site_model(sites[i])),
        ),
    decreases sites.len(),
{
    if sites.len() == 0 {
        assert(Seq::new(0, |i: int| site_model(sites[i])) =~= Seq::<
            (Seq<char>, Seq<char>, Seq<int>),
        >::empty());
    } else {
        lemma_enc_registry_head(sites);
        lemma_site_round(sites[0], enc_registry(sites.skip(1)));
        assert(enc_registry(sites).len() > 0) by {
            assert(enc_site(sites[0]).len() >= 3);
        }
        lemma_registry_rec_round(sites.skip(1), (fuel - 1) as nat);
        assert(seq![site_model(sites[0])] + Seq::new(
            sites.skip(1).len(),
            |i: int| site_model(sites.skip(1)[i]),
        ) =~= Seq::new(sites.len(), |i: int| site_model(sites[i])));
    }
}

/// Round trip: a serialized registry parses back to the same records,
/// with the same addresses, titles and connection topology.
pub proof fn lemma_registry_round_trip(sites: Seq<SiteLog>)
    ensures
        parse_registry(enc_registry(sites)) == Some(
            Seq::new(sites.len(), |i: int| site_model(sites[i])),
        ),
{
    lemma_enc_registry_len(sites);
    lemma_registry_rec_round(sites, enc_registry(sites).len());
}

/// A successful field parse consumes at least the closing line break.
proof fn lemma_parse_field_shrinks(s: Seq<char>)
    ensures
        parse_field(s) matches Some(p) ==> p.1.len() < s.len(),
    decreases s.len(),
{
    if s.len() == 0 {
    } else if s[0] == '\n' {
    } else if s[0] == '\\' {
        if s.len() >= 2 {
            lemma_parse_field_shrinks(s.skip(2));
        }
    } else {
        lemma_parse_field_shrinks(s.skip(1));
    }
}

/// A successful record parse consumes at least one character.
proof fn lemma_parse_site_shrinks(s: Seq<char>)
    ensures
        parse_site(s) matches Some(p) ==> p.1.len() < s.len(),
{
    lemma_parse_field_shrinks(s);
    let p1 = parse_field(s);
    if p1 is Some {
        lemma_parse_field_shrinks(p1->Some_0.1);
        let p2 = parse_field(p1->Some_0.1);
        if p2 is Some {
            lemma_parse_field_shrinks(p2->Some_0.1);
        }
    }
}

/// Fuel at least the input length never runs out.
proof fn lemma_parse_registry_fuel(s: Seq<char>, fuel: nat)
    requires
        fuel >= s.len(),
    ensures
        parse_registry_rec(s, fuel) == parse_registry(s),
    decreases s.len(),
{
    if s.len() > 0 && fuel > 0 {
        lemma_parse_site_shrinks(s);
        match parse_site(s) {
            Some((m, rest)) => {
                lemma_parse_registry_fuel(rest, (fuel - 1) as nat);
                lemma_parse_registry_fuel(rest, (s.len() - 1) as nat);
            },
            None => {},
        }
    }
}

/// Parsing a nonempty input reads one record and continues.
proof fn lemma_parse_registry_step(s: Seq<char>)
    requires
        s.len() > 0,
    ensures
        parse_registry(s) == (match parse_site(s) {
            Some((m, rest)) => match parse_registry(rest) {
                Some(ms) => Some(seq![m] + ms),
                None => None,
            },
            None => None,
        }),
{
    lemma_parse_site_shrinks(s);
    match parse_site(s) {
        Some((m, rest)) => {
            lemma_parse_registry_fuel(rest, (s.len() - 1) as nat);
        },
        None => {},
    }
}

/// A decimal parse in progress returns, first, a value no smaller
/// than its accumulator.
proof fn lemma_parse_first_ge(s: Seq<char>, acc: int)
    requires
        acc >= 0,
    ensures
        parse_conns_rec(s, acc, true) matches Some(vs) ==> vs.len() > 0 && vs[0] >= acc,
    decreases s.len(),
{
    if s.len() > 0 {
        if s[0] == ',' {
        } else if digit_val(s[0]) >= 0 {
            lemma_parse_first_ge(s.skip(1), acc * 10 + digit_val(s[0]));
        }
    }
}

/// Relies on FromIterator for String: collecting characters builds the
/// string with exactly those characters.
#[verifier::external_body]
fn chars_to_string(v: &Vec<char>) -> (r: String)
    ensures
        r@ == v@,
{
    v.iter().collect()
}

/// The characters of a string, in order.
fn string_to_chars(s: &str) -> (r: Vec<char>)
    ensures
        r@ == s@,
{
    let n = s.unicode_len();
    let mut out: Vec<char> = Vec::new();
    let mut i: usize = 0;
    while i < n
        invariant
            0 <= i <= n,
            n == s@.len(),
            out@ == s@.take(i as int),
        decreases n - i,
    {
        out.push(s.get_char(i));
        proof {
            assert(out@ =~= s@.take(i + 1 as int));
        }
        i = i + 1;
    }
    proof {
        assert(s@.take(n as int) =~= s@);
    }
    out
}

/// The decimal digit below ten as a character.
fn digit_to_char(d: usize) -> (r: char)
    requires
        d < 10,
    ensures
        r == digit_char(d as int),
{
    if d == 0 {
        '0'
    } else if d == 1 {
        '1'
    } else if d == 2 {
        '2'
    } else if d == 3 {
        '3'
    } else if d == 4 {
        '4'
    } else if d == 5 {
        '5'
    } else if d == 6 {
        '6'
    } else if d == 7 {
        '7'
    } else if d == 8 {
        '8'
    } else {
        '9'
    }
}

/// The value of a decimal digit character, if it is one.
fn char_to_digit(c: char) -> (r: Option<usize>)
    ensures
        r matches Some(d) ==> d as int == digit_val(c) && d < 10,
        r is None ==> digit_val(c) < 0,
{
    if c == '0' {
        Some(0)
    } else if c == '1' {
        Some(1)
    } else if c == '2' {
        Some(2)
    } else if c == '3' {
        Some(3)
    } else if c == '4' {
        Some(4)
    } else if c == '5' {
        Some(5)
    } else if c == '6' {
        Some(6)
    } else if c == '7' {
        Some(7)
    } else if c == '8' {
        Some(8)
    } else if c == '9' {
        Some(9)
    } else {
        None
    }
}

/// Appends the escaped form of the string.
fn push_escaped(out: &mut Vec<char>, s: &String)
    ensures
        final(out)@ == old(out)@ + esc_str(s@),
{
    let text = s.as_str();
    let n = text.unicode_len();
    let mut i: usize = 0;
    while i < n
        invariant
            0 <= i <= n,
            n == s@.len(),
            text@ == s@,
            out@ == old(out)@ + esc_str(s@.take(i as int)),
        decreases n - i,
    {
        let c = text.get_char(i);
        if c == '\\' || c == '\n' {
            out.push('\\');
            out.push(c);
        } else {
            out.push(c);
        }
        proof {
            assert(s@.take(i + 1 as int).drop_last() =~= s@.take(i as int));
            assert(s@.take(i + 1 as int).last() == s@[i as int]);
            assert(out@ =~= old(out)@ + esc_str(s@.take(i + 1 as int)));
        }
        i = i + 1;
    }
    proof {
        assert(s@.take(n as int) =~= s@);
    }
}

/// Appends the decimal rendering of the number.
fn push_dec(out: &mut Vec<char>, n: usize)
    ensures
        final(out)@ == old(out)@ + dec_digits(n as int),
    decreases n,
{
    if n < 10 {
        out.push(digit_to_char(n));
        proof {
            assert(out@ =~= old(out)@ + dec_digits(n as int));
        }
    } else {
        push_dec(out, n / 10);
        out.push(digit_to_char(n % 10));
        proof {
            assert(out@ =~= old(out)@ + dec_digits(n as int));
        }
    }
}

/// Serializes a registry in the persisted format; the result is
/// exactly the specified encoding.
pub fn encode_registry(sites: &Vec<SiteLog>) -> (r: String)
    ensures
        r@ == enc_registry(sites@),
{
    let mut out: Vec<char> = Vec::new();
    let mut i: usize = 0;
    while i < sites.len()
        invariant
            0 <= i <= sites@.len(),
            out@ == enc_registry(sites@.take(i as int)),
        decreases sites@.len() - i,
    {
        let site = &sites[i];
        push_escaped(&mut out, &site.url);
        out.push('\n');
        push_escaped(&mut out, &site.title);
        out.push('\n');
        let mut k: usize = 0;
        let ghost before = out@;
        while k < site.connections.len()
            invariant
                0 <= k <= site.connections@.len(),
                out@ == before + enc_conns(site.connections@.take(k as int)),
            decreases site.connections@.len() - k,
        {
            push_dec(&mut out, site.connections[k].index());
            out.push(',');
            proof {
                assert(site.connections@.take(k + 1 as int).drop_last() =~= site.connections@.take(
                    k as int,
                ));
                assert(site.connections@.take(k + 1 as int).last() == site.connections@[k as int]);
                assert(out@ =~= before + enc_conns(site.connections@.take(k + 1 as int)));
            }
            k = k + 1;
        }
        out.push('\n');
        proof {
            assert(site.connections@.take(site.connections@.len() as int)
                =~= site.connections@);
            assert(sites@.take(i + 1 as int).drop_last() =~= sites@.take(i as int));
            assert(sites@.take(i + 1 as int).last() == sites@[i as int]);
            assert(out@ =~= enc_registry(sites@.take(i + 1 as int)));
        }
        i = i + 1;
    }
    proof {
        assert(sites@.take(sites@.len() as int) =~= sites@);
    }
    chars_to_string(&out)
}

/// Reads one escaped field starting at `start`, sound against the
/// specified parse.
fn parse_field_at(chars: &Vec<char>, start: usize) -> (r: Option<(Vec<char>, usize)>)
    requires
        start <= chars@.len(),
    ensures
        r matches Some(p) ==> {
            &&& start < p.1 <= chars@.len()
            &&& parse_field(chars@.skip(start as int)) == Some((p.0@, chars@.skip(p.1 as int)))
        },
        r is None ==> parse_field(chars@.skip(start as int)) is None,
{
    let mut field: Vec<char> = Vec::new();
    let mut i: usize = start;
    proof {
        let r0 = parse_field(chars@.skip(start as int));
        if r0 is Some {
            assert(Seq::<char>::empty() + r0->Some_0.0 =~= r0->Some_0.0);
        }
    }
    loop
        invariant
            start <= i <= chars@.len(),
            parse_field(chars@.skip(start as int)) == (match parse_field(chars@.skip(i as int)) {
                Some(p) => Some((field@ + p.0, p.1)),
                None => None::<(Seq<char>, Seq<char>)>,
            }),
        decreases chars@.len() - i,
    {
        if i == chars.len() {
            proof {
                assert(chars@.skip(i as int) =~= Seq::<char>::empty());
            }
            return None;
        }
        let c = chars[i];
        proof {
            assert(chars@.skip(i as int)[0] == c);
        }
        if c == '\n' {
            proof {
                assert(chars@.skip(i as int).skip(1) =~= chars@.skip(i + 1 as int));
                assert(field@ + Seq::<char>::empty() =~= field@);
            }
            return Some((field, i + 1));
        } else if c == '\\' {
            if i + 1 == chars.len() {
                proof {
                    assert(chars@.skip(i as int).len() == 1);
                }
                return None;
            }
            let c2 = chars[i + 1];
            proof {
                assert(chars@.skip(i as int)[1] == c2);
                assert(chars@.skip(i as int).skip(2) =~= chars@.skip(i + 2 as int));
                let q = parse_field(chars@.skip(i + 2 as int));
                if q is Some {
                    assert(field@.push(c2) + q->Some_0.0 =~= field@ + (seq![c2] + q->Some_0.0));
                }
            }
            field.push(c2);
            i = i + 2;
        } else {
            proof {
                assert(chars@.skip(i as int).skip(1) =~= chars@.skip(i + 1 as int));
                let q = parse_field(chars@.skip(i + 1 as int));
                if q is Some {
                    assert(field@.push(c) + q->Some_0.0 =~= field@ + (seq![c] + q->Some_0.0));
                }
            }
            field.push(c);
            i = i + 1;
        }
    }
}

/// Reads a comma-closed decimal index list, sound against the
/// specified parse; gives up exactly on malformed input or on a number
/// beyond the machine word.
fn parse_conns_list(content: &Vec<char>) -> (r: Option<Vec<usize>>)
    ensures
        r matches Some(v) ==> parse_conns_rec(content@, 0, false) == Some(
            Seq::new(v@.len(), |j: int| v@[j] as int),
        ),
        r is None ==> parse_conns_rec(content@, 0, false) is None || (exists|j: int|
            0 <= j < parse_conns_rec(content@, 0, false)->Some_0.len() && #[trigger] parse_conns_rec(
                content@,
                0,
                false,
            )->Some_0[j] > usize::MAX),
{
    let mut vals: Vec<usize> = Vec::new();
    let mut acc: usize = 0;
    let mut started = false;
    let mut i: usize = 0;
    proof {
        let r0 = parse_conns_rec(content@, 0, false);
        if r0 is Some {
            assert(Seq::new(0, |j: int| 0int) + r0->Some_0 =~= r0->Some_0);
        }
        assert(content@.skip(0) =~= content@);
    }
    while i < content.len()
        invariant
            0 <= i <= content@.len(),
            parse_conns_rec(content@, 0, false) == (match parse_conns_rec(
                content@.skip(i as int),
                acc as int,
                started,
            ) {
                Some(vs) => Some(Seq::new(vals@.len(), |j: int| vals@[j] as int) + vs),
                None => None::<Seq<int>>,
            }),
        decreases content@.len() - i,
    {
        let c = content[i];
        proof {
            assert(content@.skip(i as int)[0] == c);
            assert(content@.skip(i as int).skip(1) =~= content@.skip(i + 1 as int));
        }
        if c == ',' {
            if !started {
                return None;
            }
            proof {
                let q = parse_conns_rec(content@.skip(i + 1 as int), 0, false);
                if q is Some {
                    assert(Seq::new(vals@.push(acc).len(), |j: int| vals@.push(acc)[j] as int)
                        =~= Seq::new(vals@.len(), |j: int| vals@[j] as int).push(acc as int));
                    assert(Seq::new(vals@.len(), |j: int| vals@[j] as int).push(acc as int) + q
                        ->Some_0 =~= Seq::new(vals@.len(), |j: int| vals@[j] as int) + (seq![
                        acc as int,
                    ] + q->Some_0));
                }
            }
            vals.push(acc);
            acc = 0;
            started = false;
        } else {
            match char_to_digit(c) {
                Some(d) => {
                    if acc > usize::MAX / 10 || (acc == usize::MAX / 10 && d > usize::MAX % 10) {
                        proof {
                            vstd::arithmetic::div_mod::lemma_fundamental_div_mod(
                                usize::MAX as int,
                                10,
                            );
                            assert(acc * 10 + d > usize::MAX) by (nonlinear_arith)
                                requires
                                    acc as int > usize::MAX as int / 10 || (acc as int
                                        == usize::MAX as int / 10 && d as int > usize::MAX as int
                                        % 10),
                                    usize::MAX as int == 10 * (usize::MAX as int / 10) + (
                                    usize::MAX as int % 10),
                                    0 <= usize::MAX as int % 10 < 10,
                                    d < 10,
                                    acc >= 0,
                                    d >= 0,
                            {
                            }
                            let next = parse_conns_rec(
                                content@.skip(i + 1 as int),
                                acc as int * 10 + d as int,
                                true,
                            );
                            lemma_parse_first_ge(
                                content@.skip(i + 1 as int),
                                acc as int * 10 + d as int,
                            );
                            if parse_conns_rec(content@, 0, false) is Some {
                                let vs = next->Some_0;
                                let total = parse_conns_rec(content@, 0, false)->Some_0;
                                assert(total[vals@.len() as int] == vs[0]);
                                assert(total[vals@.len() as int] > usize::MAX);
                            }
                        }
                        return None;
                    }
                    proof {
                        vstd::arithmetic::div_mod::lemma_fundamental_div_mod(usize::MAX as int, 10);
                        assert(acc * 10 + d <= usize::MAX) by (nonlinear_arith)
                            requires
                                acc as int <= usize::MAX as int / 10,
                                acc as int == usize::MAX as int / 10 ==> d as int
                                    <= usize::MAX as int % 10,
                                usize::MAX as int == 10 * (usize::MAX as int / 10) + (
                                usize::MAX as int % 10),
                                0 <= usize::MAX as int % 10 < 10,
                                d < 10,
                                acc >= 0,
                                d >= 0,
                        {
                        }
                    }
                    acc = acc * 10 + d;
                    started = true;
                },
                None => {
                    return None;
                },
            }
        }
        i = i + 1;
    }
    if started {
        return None;
    }
    proof {
        assert(content@.skip(content@.len() as int) =~= Seq::<char>::empty());
        assert(Seq::new(vals@.len(), |j: int| vals@[j] as int) + Seq::<int>::empty() =~= Seq::new(
            vals@.len(),
            |j: int| vals@[j] as int,
        ));
    }
    Some(vals)
}

/// Parses a registry from the persisted format.  A returned registry is
/// exactly what the format names: its records carry the parsed
/// addresses, titles and connections, and every connection points into
/// the registry.  A parse is owed whenever the input parses with
/// connection indices that fit the machine word and point into the
/// record collection; a saved registry with valid references always
/// reloads.
pub fn decode_registry(s: &str) -> (r: Option<Vec<SiteLog>>)
    ensures
        r matches Some(sites) ==> {
            &&& registry_wf(sites@)
            &&& parse_registry(s@) matches Some(ms)
            &&& parse_registry(s@)->Some_0.len() == sites@.len()
            &&& forall|i: int|
                0 <= i < sites@.len() ==> #[trigger] site_model(sites@[i]) == parse_registry(
                    s@,
                )->Some_0[i]
        },
        (parse_registry(s@) matches Some(ms) && (forall|i: int, j: int|
            0 <= i < ms.len() && 0 <= j < ms[i].2.len() ==> 0 <= #[trigger] ms[i].2[j]
                <= usize::MAX && ms[i].2[j] < ms.len())) ==> r is Some,
{
    let chars = string_to_chars(s);
    let mut sites: Vec<SiteLog> = Vec::new();
    let ghost mut models: Seq<(Seq<char>, Seq<char>, Seq<int>)> = Seq::empty();
    let mut i: usize = 0;
    proof {
        let r0 = parse_registry(chars@);
        if r0 is Some {
            assert(models + r0->Some_0 =~= r0->Some_0);
        }
        assert(chars@.skip(0) =~= chars@);
    }
    while i < chars.len()
        invariant
            0 <= i <= chars@.len(),
            chars@ == s@,
            sites@.len() == models.len(),
            forall|j: int| 0 <= j < sites@.len() ==> #[trigger] site_model(sites@[j]) == models[j],
            parse_registry(chars@) == (match parse_registry(chars@.skip(i as int)) {
                Some(ms) => Some(models + ms),
                None => None::<Seq<(Seq<char>, Seq<char>, Seq<int>)>>,
            }),
        decreases chars@.len() - i,
    {
        let ghost suffix = chars@.skip(i as int);
        proof {
            lemma_parse_registry_step(suffix);
        }
        let url_field = match parse_field_at(&chars, i) {
            Some(p) => p,
            None => {
                proof {
                    assert(parse_site(suffix) is None);
                    assert(parse_registry(chars@) is None);
                }
                return None;
            },
        };
        let title_field = match parse_field_at(&chars, url_field.1) {
            Some(p) => p,
            None => {
                proof {
                    assert(parse_site(suffix) is None);
                    assert(parse_registry(chars@) is None);
                }
                return None;
            },
        };
        let conn_field = match parse_field_at(&chars, title_field.1) {
            Some(p) => p,
            None => {
                proof {
                    assert(parse_site(suffix) is None);
                    assert(parse_registry(chars@) is None);
                }
                return None;
            },
        };
        let idxs = match parse_conns_list(&conn_field.0) {
            Some(v) => v,
            None => {
                proof {
                    if parse_conns_rec(conn_field.0@, 0, false) is None {
                        assert(parse_site(suffix) is None);
                        assert(parse_registry(chars@) is None);
                    } else {
                        if parse_registry(chars@) is Some {
                            let ms_total = parse_registry(chars@)->Some_0;
                            let m = parse_site(suffix)->Some_0.0;
                            let rest = parse_site(suffix)->Some_0.1;
                            assert(m.2 == parse_conns_rec(conn_field.0@, 0, false)->Some_0);
                            let j = choose|j: int|
                                0 <= j < parse_conns_rec(conn_field.0@, 0, false)->Some_0.len()
                                    && #[trigger] parse_conns_rec(
                                    conn_field.0@,
                                    0,
                                    false,
                                )->Some_0[j] > usize::MAX;
                            if parse_registry(rest) is Some {
                                let ms_rest = parse_registry(rest)->Some_0;
                                assert(ms_total == models + (seq![m] + ms_rest));
                                assert(ms_total[models.len() as int] == m);
                                assert(ms_total[models.len() as int].2[j] > usize::MAX);
                            } else {
                                assert(parse_registry(chars@) is None);
                            }
                        }
                    }
                }
                return None;
            },
        };
        proof {
            assert(chars@.skip(url_field.1 as int) == parse_field(suffix)->Some_0.1);
        }
        let mut connections: Vec<SiteKey> = Vec::new();
        let mut k: usize = 0;
        while k < idxs.len()
            invariant
                0 <= k <= idxs@.len(),
                connections@.len() == k,
                forall|j: int|
                    0 <= j < k ==> (#[trigger] connections@[j]).spec_idx() == idxs@[j] as int,
            decreases idxs@.len() - k,
        {
            connections.push(SiteKey::new(idxs[k]));
            k = k + 1;
        }
        let site = SiteLog {
            url: chars_to_string(&url_field.0),
            title: chars_to_string(&title_field.0),
            connections,
        };
        let ghost m = parse_site(suffix)->Some_0.0;
        proof {
            assert(site_model(site).0 == m.0);
            assert(site_model(site).1 == m.1);
            assert(site_model(site).2 =~= m.2);
            let rest = parse_site(suffix)->Some_0.1;
            let q = parse_registry(rest);
            if q is Some {
                assert(models.push(m) + q->Some_0 =~= models + (seq![m] + q->Some_0));
            }
            lemma_parse_site_shrinks(suffix);
        }
        sites.push(site);
        proof {
            models = models.push(m);
        }
        let next = conn_field.1;
        proof {
            assert(chars@.skip(next as int) == parse_site(suffix)->Some_0.1);
        }
        i = next;
    }
    proof {
        assert(chars@.skip(chars@.len() as int) =~= Seq::<char>::empty());
        assert(models + Seq::<(Seq<char>, Seq<char>, Seq<int>)>::empty() =~= models);
    }
    // a registry is usable only when every reference points into it
    let n = sites.len();
    let mut v: usize = 0;
    while v < n
        invariant
            0 <= v <= n,
            n == sites@.len(),
            chars@ == s@,
            sites@.len() == models.len(),
            forall|j: int| 0 <= j < sites@.len() ==> #[trigger] site_model(sites@[j]) == models[j],
            parse_registry(s@) == Some(models),
            forall|j: int, e: int|
                0 <= j < v && 0 <= e < sites@[j].connections@.len() ==> 0 <= (
                #[trigger] sites@[j].connections@[e]).spec_idx() < n,
        decreases n - v,
    {
        let site = &sites[v];
        let mut e: usize = 0;
        while e < site.connections.len()
            invariant
                0 <= e <= site.connections@.len(),
                v < n,
                n == sites@.len(),
                site == &sites[v as int],
                sites@.len() == models.len(),
                forall|j: int| 0 <= j < sites@.len() ==> #[trigger] site_model(sites@[j]) == models[j],
                parse_registry(s@) == Some(models),
                forall|f: int|
                    0 <= f < e ==> 0 <= (#[trigger] site.connections@[f]).spec_idx() < n,
            decreases site.connections@.len() - e,
        {
            if site.connections[e].index() >= n {
                proof {
                    let ms = parse_registry(s@)->Some_0;
                    assert(site_model(sites@[v as int]) == ms[v as int]);
                    assert(ms[v as int].2[e as int] == site.connections@[e as int].spec_idx());
                    assert(ms[v as int].2[e as int] >= ms.len());
                }
                return None;
            }
            e = e + 1;
        }
        v = v + 1;
    }
    Some(sites)
}

} // verus!
