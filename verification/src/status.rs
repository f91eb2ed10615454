//! Synthesized status response: the JSON document the proxy writes to
//! a client when no backend takes the connection over.

use vstd::prelude::*;
use vstd::string::StringExecFns;
use vstd::string::StrSliceExecFns;
use vstd::utf8::encode_utf8;

verus! {

/// Decimal digit character for `d` below ten, lowercase hex letter for
/// ten to fifteen.
pub open spec fn digit_char(d: nat) -> char {
    if d < 10 {
        ((d + 48) as u8) as char
    } else {
        ((d + 87) as u8) as char
    }
}

/// Decimal digits of `n`, most significant first.
pub open spec fn dec_digits(n: nat) -> Seq<char>
    decreases n,
{
    if n < 10 {
        seq![digit_char(n)]
    } else {
        dec_digits(n / 10) + seq![digit_char(n % 10)]
    }
}

/// JSON string-literal escape of one character: quote and backslash
/// take a leading backslash, control characters take the `\u00` hex
/// form, every other character stands for itself.
pub open spec fn escape_char(c: char) -> Seq<char> {
    if c == '"' {
        seq!['\\', '"']
    } else if c == '\\' {
        seq!['\\', '\\']
    } else if (c as u32) < 32 {
        seq!['\\', 'u', '0', '0',
            digit_char(((c as u32) / 16) as nat),
            digit_char(((c as u32) % 16) as nat)]
    } else {
        seq![c]
    }
}

/// JSON string-literal escape of a character sequence.
pub open spec fn json_escape(s: Seq<char>) -> Seq<char>
    decreases s.len(),
{
    if s.len() == 0 {
        Seq::empty()
    } else {
        escape_char(s[0]) + json_escape(s.drop_first())
    }
}

/// Tail of the description text: whether a backend exists for the
/// hostname but is unreachable, or none is configured at all.
pub open spec fn desc_suffix(offline: bool) -> Seq<char> {
    if offline {
        " - Backend is offline"@
    } else {
        " - No Server found"@
    }
}

/// The status document sent when no backend answers: a version block
/// echoing the client's protocol, a fixed players block, and a
/// description naming the proxy and why it answered itself.
pub open spec fn status_json(protocol: u32, name: Seq<char>, offline: bool) -> Seq<char> {
    "{\"version\":{\"protocol\":"@ + dec_digits(protocol as nat)
        + ",\"name\":\""@ + json_escape(name)
        + "\",\"supportedVersions\":["@ + dec_digits(protocol as nat)
        + "]},\"players\":{\"max\":100,\"online\":69,\"sample\":[]},\"description\":{\"text\":\""@
        + json_escape(name) + desc_suffix(offline)
        + "\"}}"@
}

/// A display name of this length keeps the status payload within the
/// 32-bit length prefixes of the wire format.
pub open spec fn status_name_fits(name: Seq<char>) -> bool {
    48 * name.len() + 2048 <= u32::MAX
}

/// Escaping a character yields one to six characters.
proof fn lemma_escape_char_len(c: char)
    ensures
        1 <= escape_char(c).len() <= 6,
{
}

/// Escaping stretches a string by a factor of six at most.
pub proof fn lemma_json_escape_len(s: Seq<char>)
    ensures
        s.len() <= json_escape(s).len() <= 6 * s.len(),
    decreases s.len(),
{
    if s.len() > 0 {
        lemma_escape_char_len(s[0]);
        lemma_json_escape_len(s.drop_first());
    }
}

/// UTF-8 spends at most four bytes per character.
pub proof fn lemma_encode_utf8_len(s: Seq<char>)
    ensures
        s.len() <= encode_utf8(s).len() <= 4 * s.len(),
    decreases s.len(),
{
    if s.len() > 0 {
        assert(1 <= vstd::utf8::encode_scalar(s[0] as u32).len() <= 4);
        lemma_encode_utf8_len(s.drop_first());
    }
}

/// A 32-bit value renders as at most ten decimal digits.
pub proof fn lemma_dec_digits_len(n: nat)
    requires
        n <= u32::MAX,
    ensures
        1 <= dec_digits(n).len() <= 10,
{
    let n1 = n / 10;
    let n2 = n1 / 10;
    let n3 = n2 / 10;
    let n4 = n3 / 10;
    let n5 = n4 / 10;
    let n6 = n5 / 10;
    let n7 = n6 / 10;
    let n8 = n7 / 10;
    let n9 = n8 / 10;
    assert(n9 < 10);
    if n >= 10 {
        assert(dec_digits(n).len() == dec_digits(n1).len() + 1);
        if n1 >= 10 {
            assert(dec_digits(n1).len() == dec_digits(n2).len() + 1);
            if n2 >= 10 {
                assert(dec_digits(n2).len() == dec_digits(n3).len() + 1);
                if n3 >= 10 {
                    assert(dec_digits(n3).len() == dec_digits(n4).len() + 1);
                    if n4 >= 10 {
                        assert(dec_digits(n4).len() == dec_digits(n5).len() + 1);
                        if n5 >= 10 {
                            assert(dec_digits(n5).len() == dec_digits(n6).len() + 1);
                            if n6 >= 10 {
                                assert(dec_digits(n6).len() == dec_digits(n7).len() + 1);
                                if n7 >= 10 {
                                    assert(dec_digits(n7).len() == dec_digits(n8).len() + 1);
                                    if n8 >= 10 {
                                        assert(dec_digits(n8).len() == dec_digits(n9).len() + 1);
                                        assert(dec_digits(n9).len() == 1);
                                    }
                                }
                            }
                        }
                    }
                }
            }
        }
    }
}

/// With a display name within `status_name_fits`, the whole status
/// document stays comfortably inside a 32-bit byte length.
pub proof fn lemma_status_json_fits(protocol: u32, name: Seq<char>, offline: bool)
    requires
        status_name_fits(name),
    ensures
        encode_utf8(status_json(protocol, name, offline)).len() + 16 <= u32::MAX,
{
    let s = status_json(protocol, name, offline);
    reveal_strlit("{\"version\":{\"protocol\":");
    reveal_strlit(",\"name\":\"");
    reveal_strlit("\",\"supportedVersions\":[");
    reveal_strlit("]},\"players\":{\"max\":100,\"online\":69,\"sample\":[]},\"description\":{\"text\":\"");
    reveal_strlit(" - Backend is offline");
    reveal_strlit(" - No Server found");
    reveal_strlit("\"}}");
    lemma_dec_digits_len(protocol as nat);
    lemma_json_escape_len(name);
    lemma_encode_utf8_len(s);
    assert(s.len() <= 200 + 12 * name.len());
}

/// Escaping distributes over concatenation.
proof fn lemma_json_escape_append(a: Seq<char>, b: Seq<char>)
    ensures
        json_escape(a + b) == json_escape(a) + json_escape(b),
    decreases a.len(),
{
    if a.len() == 0 {
        assert(a + b =~= b);
        assert(json_escape(a) + json_escape(b) =~= json_escape(b));
    } else {
        assert((a + b).drop_first() =~= a.drop_first() + b);
        lemma_json_escape_append(a.drop_first(), b);
        assert((a + b)[0] == a[0]);
        assert(json_escape(a + b) =~= json_escape(a) + json_escape(b));
    }
}

/// Relies on `String::push`: it appends exactly the one character.
#[verifier::external_body]
fn push_char(out: &mut String, c: char)
    ensures
        final(out)@ == old(out)@ + seq![c],
{
    out.push(c);
}

/// Append the decimal rendering of `v`.
fn append_decimal(out: &mut String, v: u32)
    ensures
        final(out)@ == old(out)@ + dec_digits(v as nat),
    decreases v,
{
    if v < 10 {
        push_char(out, (48 + v as u8) as char);
        proof {
            assert(out@ =~= old(out)@ + dec_digits(v as nat));
        }
    } else {
        append_decimal(out, v / 10);
        push_char(out, (48 + (v % 10) as u8) as char);
        proof {
            assert(out@ =~= old(out)@ + dec_digits(v as nat));
        }
    }
}

/// Append the JSON escape of `s`.
fn append_escaped(out: &mut String, s: &str)
    ensures
        final(out)@ == old(out)@ + json_escape(s@),
{
    let n: usize = s.unicode_len();
    proof {
        assert(s@.take(0) =~= Seq::<char>::empty());
    }
    let mut i: usize = 0;
    while i < n
        invariant
            n == s@.len(),
            i <= n,
            out@ == old(out)@ + json_escape(s@.take(i as int)),
        decreases n - i,
    {
        let c = s.get_char(i);
        proof {
            assert(s@.take(i + 1 as int) =~= s@.take(i as int) + seq![s@[i as int]]);
            lemma_json_escape_append(s@.take(i as int), seq![s@[i as int]]);
            assert(seq![s@[i as int]].drop_first() =~= Seq::<char>::empty());
            assert(json_escape(Seq::<char>::empty()) =~= Seq::<char>::empty());
            assert(escape_char(s@[i as int]) + Seq::<char>::empty()
                =~= escape_char(s@[i as int]));
            assert(json_escape(seq![s@[i as int]]) =~= escape_char(s@[i as int]));
        }
        if c == '"' {
            out.append("\\\"");
            proof {
                reveal_strlit("\\\"");
                assert("\\\""@ =~= escape_char(c));
            }
        } else if c == '\\' {
            out.append("\\\\");
            proof {
                reveal_strlit("\\\\");
                assert("\\\\"@ =~= escape_char(c));
            }
        } else if (c as u32) < 32 {
            out.append("\\u00");
            let hv: u32 = (c as u32) / 16;
            let lv: u32 = (c as u32) % 16;
            push_char(out, (48 + hv as u8) as char);
            if lv < 10 {
                push_char(out, (48 + lv as u8) as char);
            } else {
                push_char(out, (87 + lv as u8) as char);
            }
            proof {
                reveal_strlit("\\u00");
                assert("\\u00"@ + seq![digit_char(hv as nat)] + seq![digit_char(lv as nat)]
                    =~= escape_char(c));
            }
        } else {
            push_char(out, c);
            proof {
                assert(seq![c] =~= escape_char(c));
            }
        }
        i = i + 1;
        proof {
            assert(out@ =~= old(out)@ + json_escape(s@.take(i as int)));
        }
    }
    proof {
        assert(s@.take(n as int) =~= s@);
    }
}

/// Build the status document for this protocol version, display name
/// and backend condition.
pub fn status_json_string(protocol: u32, name: &str, offline: bool) -> (r: String)
    ensures
        r@ == status_json(protocol, name@, offline),
{
    let mut out = String::new();
    out.append("{\"version\":{\"protocol\":");
    append_decimal(&mut out, protocol);
    out.append(",\"name\":\"");
    append_escaped(&mut out, name);
    out.append("\",\"supportedVersions\":[");
    append_decimal(&mut out, protocol);
    out.append("]},\"players\":{\"max\":100,\"online\":69,\"sample\":[]},\"description\":{\"text\":\"");
    append_escaped(&mut out, name);
    if offline {
        out.append(" - Backend is offline");
    } else {
        out.append(" - No Server found");
    }
    out.append("\"}}");
    proof {
        assert(out@ =~= status_json(protocol, name@, offline));
    }
    out
}

} // verus!
