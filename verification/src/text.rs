use crate::tree::HeartRateTree;
use crate::tree::TreeNode;
use vstd::prelude::*;
use vstd::string::StringExecFns;

verus! {

/// The largest second count that chrono's calendar can hold: the last second
/// of its final year. Rendering is asked only for timestamps at or below it.
pub const MAX_RENDER_TIMESTAMP: u64 = 8210266876799;

/// The RFC 3339 UTC text of a second count, e.g. `1970-01-01T00:00:00+00:00`.
/// Produced by chrono; a function of the second count alone.
pub uninterp spec fn rfc3339_of(ts: u64) -> Seq<char>;

/// Relies on chrono's `DateTime::from_timestamp` and `DateTime::to_rfc3339`:
/// a second count at or below `MAX_RENDER_TIMESTAMP` names a representable
/// instant, and its RFC 3339 text depends on the second count alone.
#[verifier::external_body]
fn rfc3339_utc(ts: u64) -> (r: String)
    requires
        ts <= MAX_RENDER_TIMESTAMP,
    ensures
        r@ == rfc3339_of(ts),
{
    chrono::DateTime::from_timestamp(ts as i64, 0).unwrap().to_rfc3339()
}

/// The character of one decimal digit.
pub open spec fn dec_digit(d: int) -> Seq<char> {
    if d == 0 {
        "0"@
    } else if d == 1 {
        "1"@
    } else if d == 2 {
        "2"@
    } else if d == 3 {
        "3"@
    } else if d == 4 {
        "4"@
    } else if d == 5 {
        "5"@
    } else if d == 6 {
        "6"@
    } else if d == 7 {
        "7"@
    } else if d == 8 {
        "8"@
    } else {
        "9"@
    }
}

/// The decimal text of a non-negative number, most significant digit first,
/// no leading zeros (a lone zero for zero itself).
pub open spec fn dec_of(n: int) -> Seq<char>
    decreases n,
{
    if n < 10 {
        dec_digit(n)
    } else {
        dec_of(n / 10) + dec_digit(n % 10)
    }
}

fn append_digit(out: &mut String, d: u32)
    requires
        d < 10,
    ensures
        final(out)@ == old(out)@ + dec_digit(d as int),
{
    if d == 0 {
        out.append("0");
    } else if d == 1 {
        out.append("1");
    } else if d == 2 {
        out.append("2");
    } else if d == 3 {
        out.append("3");
    } else if d == 4 {
        out.append("4");
    } else if d == 5 {
        out.append("5");
    } else if d == 6 {
        out.append("6");
    } else if d == 7 {
        out.append("7");
    } else if d == 8 {
        out.append("8");
    } else {
        out.append("9");
    }
}

fn push_decimal(out: &mut String, n: u32)
    ensures
        final(out)@ == old(out)@ + dec_of(n as int),
    decreases n,
{
    if n >= 10 {
        push_decimal(out, n / 10);
    }
    append_digit(out, n % 10);
    proof {
        if n >= 10 {
            assert(old(out)@ + dec_of((n / 10) as int) + dec_digit((n % 10) as int) =~= old(out)@
                + dec_of(n as int));
        }
    }
}

/// The display line of one sample: its RFC 3339 UTC timestamp, a separating
/// dash, and its heart rate in decimal.
pub open spec fn line_of(ts: u64, hr: u32) -> Seq<char> {
    rfc3339_of(ts) + " - "@ + dec_of(hr as int)
}

/// The display text of a listing of samples: one line per sample, each
/// closed by a newline.
pub open spec fn rendered(s: Seq<(u64, u32)>) -> Seq<char>
    decreases s.len(),
{
    if s.len() == 0 {
        Seq::empty()
    } else {
        line_of(s.first().0, s.first().1) + "\n"@ + rendered(s.drop_first())
    }
}

/// Every timestamp of the listing fits chrono's calendar.
pub open spec fn renderable(s: Seq<(u64, u32)>) -> bool {
    forall|i: int| 0 <= i < s.len() ==> (#[trigger] s[i]).0 <= MAX_RENDER_TIMESTAMP
}

pub proof fn lemma_rendered_add(a: Seq<(u64, u32)>, b: Seq<(u64, u32)>)
    ensures
        rendered(a + b) == rendered(a) + rendered(b),
    decreases a.len(),
{
    if a.len() == 0 {
        assert(a + b =~= b);
        assert(rendered(a) + rendered(b) =~= rendered(b));
    } else {
        assert((a + b).drop_first() =~= a.drop_first() + b);
        lemma_rendered_add(a.drop_first(), b);
        assert((a + b).first() == a.first());
        assert(line_of(a.first().0, a.first().1) + "\n"@ + (rendered(a.drop_first()) + rendered(b))
            =~= (line_of(a.first().0, a.first().1) + "\n"@ + rendered(a.drop_first())) + rendered(
            b,
        ));
    }
}

pub proof fn lemma_rendered_singleton(m: (u64, u32))
    ensures
        rendered(seq![m]) == line_of(m.0, m.1) + "\n"@,
{
    assert(seq![m].drop_first() =~= Seq::<(u64, u32)>::empty());
    assert(rendered(Seq::<(u64, u32)>::empty()) == Seq::<char>::empty());
    assert(line_of(m.0, m.1) + "\n"@ + Seq::<char>::empty() =~= line_of(m.0, m.1) + "\n"@);
}

impl TreeNode {
    /// One sample on its own, without a closing newline.
    pub fn render(&self) -> (r: String)
        requires
            self.timestamp <= MAX_RENDER_TIMESTAMP,
        ensures
            r@ == line_of(self.timestamp, self.heart_rate),
    {
        let mut out = rfc3339_utc(self.timestamp);
        out.append(" - ");
        push_decimal(&mut out, self.heart_rate);
        out
    }
}

impl HeartRateTree {
    fn display_node(&self, node: &Option<Box<TreeNode>>, out: &mut String)
        requires
            renderable(TreeNode::seq_of(*node)),
        ensures
            final(out)@ == old(out)@ + rendered(TreeNode::seq_of(*node)),
        decreases node,
    {
        match node {
            Some(n) => {
                let ghost s_l = TreeNode::seq_of(n.left);
                let ghost s_r = TreeNode::seq_of(n.right);
                let ghost m = (n.timestamp, n.heart_rate);
                let ghost s = TreeNode::seq_of(*node);
                proof {
                    let kl = s_l.len() as int;
                    assert forall|k: int| 0 <= k < s_l.len() implies (#[trigger] s_l[k]).0
                        <= MAX_RENDER_TIMESTAMP by {
                        assert(s[k] == s_l[k]);
                    }
                    assert(s[kl] == m);
                    assert forall|k: int| 0 <= k < s_r.len() implies (#[trigger] s_r[k]).0
                        <= MAX_RENDER_TIMESTAMP by {
                        assert(s[kl + 1 + k] == s_r[k]);
                    }
                }
                self.display_node(&n.left, out);
                let line = n.render();
                out.append(line.as_str());
                out.append("\n");
                self.display_node(&n.right, out);
                proof {
                    lemma_rendered_add(s_l + seq![m], s_r);
                    lemma_rendered_add(s_l, seq![m]);
                    lemma_rendered_singleton(m);
                    assert(s =~= (s_l + seq![m]) + s_r);
                    assert(out@ =~= old(out)@ + rendered(s));
                }
            },
            None => {},
        }
    }

    /// The whole tree in ascending timestamp order, one line per sample,
    /// each line closed by a newline.
    pub fn render(&self) -> (r: String)
        requires
            renderable(self@),
        ensures
            r@ == rendered(self@),
    {
        let mut out = String::new();
        self.display_node(&self.root, &mut out);
        proof {
            assert(Seq::<char>::empty() + rendered(self@) =~= rendered(self@));
        }
        out
    }
}

} // verus!
