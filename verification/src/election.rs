//! The weighted draw that picks one of the candidates of a bucket, and the
//! record handed to the client.

use rand::Rng;
use vstd::prelude::*;
use vstd::string::StringExecFns;
use crate::connection::Connection;
use crate::connection::ConnectionView;

verus! {

/// The sum of the weights of `n` candidates: the first weighs `n`, the next
/// one less, the last weighs one.
pub open spec fn total_weight(n: nat) -> nat
    decreases n,
{
    if n == 0 {
        0
    } else {
        n + total_weight((n - 1) as nat)
    }
}

/// The position picked among `n` candidates by a draw below their total
/// weight: the first candidate takes the first `n` draws, the next the
/// following `n - 1`, and so on.
pub open spec fn pick_within(n: nat, draw: nat) -> nat
    decreases n,
{
    if n == 0 || draw < n {
        0
    } else {
        1 + pick_within((n - 1) as nat, (draw - n) as nat)
    }
}

/// The position picked among `n` candidates by any draw; a draw that is not
/// below the total weight picks the first candidate.
pub open spec fn weighted_pick(n: nat, draw: nat) -> nat {
    if draw < total_weight(n) {
        pick_within(n, draw)
    } else {
        0
    }
}

/// The first draw that picks position `i` among `n` candidates.
pub open spec fn first_draw(n: nat, i: nat) -> int
    decreases i,
{
    if i == 0 {
        0
    } else {
        first_draw(n, (i - 1) as nat) + (n - (i - 1))
    }
}

/// The total weight of `n` candidates is `n (n + 1) / 2`.
pub proof fn lemma_total_weight(n: nat)
    ensures
        2 * total_weight(n) == n * (n + 1),
    decreases n,
{
    if n > 0 {
        let m = (n - 1) as nat;
        lemma_total_weight(m);
        let t = total_weight(n) as int;
        let tm = total_weight(m) as int;
        let ni = n as int;
        let mi = m as int;
        assert(t == ni + tm);
        assert(2 * tm == mi * (mi + 1));
        assert(2 * t == ni * (ni + 1)) by (nonlinear_arith)
            requires
                2 * tm == mi * (mi + 1),
                t == ni + tm,
                mi == ni - 1,
        ;
    } else {
        assert(total_weight(0) == 0);
        assert(0 * (0 + 1) == 0);
    }
}

proof fn lemma_pick_within_range(n: nat, draw: nat)
    requires
        draw < total_weight(n),
    ensures
        pick_within(n, draw) < n,
    decreases n,
{
    if n > 0 && draw >= n {
        lemma_pick_within_range((n - 1) as nat, (draw - n) as nat);
    }
}

/// Any draw picks one of the candidates.
pub proof fn lemma_pick_in_range(n: nat, draw: nat)
    requires
        0 < n,
    ensures
        weighted_pick(n, draw) < n,
{
    if draw < total_weight(n) {
        lemma_pick_within_range(n, draw);
    }
}

proof fn lemma_first_draw_step(n: nat, i: nat)
    ensures
        first_draw(n, i + 1) == first_draw(n, i) + (n - i),
{
    assert(first_draw(n, i + 1) == first_draw(n, ((i + 1) - 1) as nat) + (n - ((i + 1) - 1)));
}

proof fn lemma_first_draw_shift(n: nat, i: nat)
    requires
        0 < n,
    ensures
        first_draw(n, i + 1) == n + first_draw((n - 1) as nat, i),
    decreases i,
{
    lemma_first_draw_step(n, i);
    if i > 0 {
        lemma_first_draw_shift(n, (i - 1) as nat);
        lemma_first_draw_step((n - 1) as nat, (i - 1) as nat);
    }
}

proof fn lemma_first_draw_grows(n: nat, a: nat, b: nat)
    requires
        a <= b <= n,
    ensures
        first_draw(n, a) <= first_draw(n, b),
    decreases b - a,
{
    if a < b {
        lemma_first_draw_grows(n, a, (b - 1) as nat);
        lemma_first_draw_step(n, (b - 1) as nat);
    }
}

proof fn lemma_first_draw_total(n: nat)
    ensures
        first_draw(n, n) == total_weight(n),
    decreases n,
{
    if n > 0 {
        lemma_first_draw_total((n - 1) as nat);
        lemma_first_draw_shift(n, (n - 1) as nat);
    }
}

proof fn lemma_pick_interval(n: nat, i: nat, draw: nat)
    requires
        i < n,
        draw < total_weight(n),
    ensures
        pick_within(n, draw) == i <==> first_draw(n, i) <= draw < first_draw(n, i + 1),
    decreases n,
{
    lemma_first_draw_step(n, 0);
    if draw < n {
        if i > 0 {
            lemma_first_draw_grows(n, 1, i);
        }
    } else {
        let m = (n - 1) as nat;
        let d = (draw - n) as nat;
        assert(pick_within(n, draw) == 1 + pick_within(m, d));
        if i > 0 {
            lemma_pick_interval(m, (i - 1) as nat, d);
            lemma_first_draw_shift(n, (i - 1) as nat);
            lemma_first_draw_shift(n, i);
        }
    }
}

/// The draws that pick position `i` among `n` candidates are the `n - i`
/// draws from `first_draw(n, i)` on: of the `n (n + 1) / 2` equally likely
/// draws below the total weight, exactly `n - i` pick position `i`.
pub proof fn lemma_weight_of_position(n: nat, i: nat, draw: nat)
    requires
        i < n,
    ensures
        first_draw(n, n) == total_weight(n),
        2 * total_weight(n) == n * (n + 1),
        (draw < total_weight(n) && weighted_pick(n, draw) == i) <==> (first_draw(n, i) <= draw
            < first_draw(n, i) + (n - i)),
{
    lemma_first_draw_total(n);
    lemma_total_weight(n);
    lemma_first_draw_step(n, i);
    lemma_first_draw_grows(n, i + 1, n);
    if draw < total_weight(n) {
        lemma_pick_interval(n, i, draw);
    }
}

/// Calls `rand::thread_rng().gen_range(0..bound)`: a number from the
/// thread-local generator, at least zero and below `bound`. Nothing is
/// claimed about which number it is. The range must not be empty.
#[verifier::external_body]
pub(crate) fn random_below(bound: u128) -> (r: u128)
    requires
        bound > 0,
    ensures
        r < bound,
{
    rand::thread_rng().gen_range(0..bound)
}

/// Returns the total weight of `n` candidates.
pub fn weight_sum(n: usize) -> (total: u128)
    ensures
        total == total_weight(n as nat),
{
    proof {
        lemma_total_weight(n as nat);
        assert(n * (n + 1) <= 0xFFFF_FFFF_FFFF_FFFF * 0x1_0000_0000_0000_0000) by (nonlinear_arith)
            requires
                0 <= n <= 0xFFFF_FFFF_FFFF_FFFF,
        ;
    }
    let m = n as u128;
    m * (m + 1) / 2
}

/// Returns the position that a draw picks among `n` candidates.
pub fn pick_weighted(n: usize, draw: u128) -> (i: usize)
    ensures
        i == weighted_pick(n as nat, draw as nat),
        n > 0 ==> i < n,
{
    let mut rest = draw;
    let mut i: usize = 0;
    while i < n
        invariant
            i <= n,
            (draw < total_weight(n as nat)) == (rest < total_weight((n - i) as nat)),
            draw < total_weight(n as nat) ==> pick_within(n as nat, draw as nat) == i + pick_within(
                (n - i) as nat,
                rest as nat,
            ),
        decreases n - i,
    {
        let weight = (n - i) as u128;
        if rest < weight {
            return i;
        }
        rest = rest - weight;
        i += 1;
    }
    0
}

/// Picks one of the candidates by a weighted draw: with `n` candidates the
/// first is `n` times as likely as the last.
pub fn select_with_weighted_rng<'a>(nodes: &Vec<&'a Connection>) -> (chosen: &'a Connection)
    requires
        nodes@.len() > 0,
    ensures
        exists|i: int| 0 <= i < nodes@.len() && chosen == nodes@[i],
{
    let total = weight_sum(nodes.len());
    proof {
        assert(total_weight(nodes@.len()) > 0);
    }
    let draw = random_below(total);
    let i = pick_weighted(nodes.len(), draw);
    nodes[i]
}

/// The JSON text of a string: what `serde_json` writes for it.
pub uninterp spec fn json_text(s: Seq<char>) -> Seq<char>;

/// Calls `serde_json::to_string` on a string. The result is the JSON text of
/// the string, which is taken to depend on the string alone. The call is
/// taken to succeed on every string: of the two causes of failure that
/// `serde_json` names, a value whose own serialization fails and a map
/// whose keys are no strings, neither can arise for a string, and the text
/// is written into a byte vector, which takes whatever is written to it.
#[verifier::external_body]
pub(crate) fn json_string(s: &str) -> (r: Option<String>)
    ensures
        r is Some,
        r matches Some(t) ==> t@ == json_text(s@),
{
    serde_json::to_string(s).ok()
}

/// What a client is told about the node elected for it.
#[derive(Debug)]
pub struct Output<'a> {
    /// The identity of the node as sixteen hexadecimal digits.
    pub uid: &'a str,
    /// The address of the node.
    pub url: &'a str,
}

/// The JSON object with the members `uid` and `url`, given the JSON text of
/// each.
pub open spec fn framed(uid_json: Seq<char>, url_json: Seq<char>) -> Seq<char> {
    "{\"uid\":"@ + uid_json + ",\"url\":"@ + url_json + "}"@
}

/// The JSON object that names an elected node.
pub open spec fn output_json(uid: Seq<char>, url: Seq<char>) -> Seq<char> {
    framed(json_text(uid), json_text(url))
}

/// Writes the JSON object with the members `uid` and `url`, given the JSON
/// text of each.
pub fn frame_output(uid_json: &str, url_json: &str) -> (json: String)
    ensures
        json@ == framed(uid_json@, url_json@),
{
    let mut out = String::from_str("{\"uid\":");
    out.append(uid_json);
    out.append(",\"url\":");
    out.append(url_json);
    out.append("}");
    out
}

/// The JSON object that names the node of a connection.
pub open spec fn output_of(c: ConnectionView) -> Seq<char> {
    output_json(c.node.uid_string, c.node.address)
}

impl<'a> Output<'a> {
    /// The record for the node of a connection.
    pub fn from_connection(connection: &'a Connection) -> (out: Output<'a>)
        ensures
            out.uid@ == connection@.node.uid_string,
            out.url@ == connection@.node.address,
    {
        Output { uid: connection.node().uid_as_str(), url: connection.node().address() }
    }

    /// Renders the record as a JSON object with the members `uid` and `url`.
    /// Every record has such a text.
    pub fn to_json(&self) -> (json: Option<String>)
        ensures
            json matches Some(s) && s@ == output_json(self.uid@, self.url@),
    {
        match json_string(self.uid) {
            None => None,
            Some(uid) => match json_string(self.url) {
                None => None,
                Some(url) => Some(frame_output(uid.as_str(), url.as_str())),
            },
        }
    }
}

} // verus!
