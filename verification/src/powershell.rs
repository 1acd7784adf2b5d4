//! The commands that drive the Windows firewall through PowerShell, and the
//! reading of what it prints. Running a command is the caller's business:
//! this module only writes the text.

use crate::address::IpNet;
use crate::backend::BackendError;
use crate::text::{
    all_digits, append_decimal, chars_of, decimal_digits, decimal_value, parse_digits,
};
use vstd::prelude::*;
use vstd::string::*;

verus! {

/// The digits of the four octets of an address with `_` between them.
pub open spec fn spec_quad_name(addr: u32) -> Seq<char> {
    decimal_digits((addr / 0x100_0000) as nat) + seq!['_'] + decimal_digits(
        (addr / 0x1_0000 % 0x100) as nat,
    ) + seq!['_'] + decimal_digits((addr / 0x100 % 0x100) as nat) + seq!['_'] + decimal_digits(
        (addr % 0x100) as nat,
    )
}

/// The display name of the rule that blocks `ip`: `d-shark_block_` and the
/// address as it is written, with `_` in place of each dot.
pub open spec fn spec_rule_name(ip: IpNet) -> Seq<char> {
    match ip {
        IpNet::V4(net) => if net.prefix == 32 {
            "d-shark_block_"@ + spec_quad_name(net.addr)
        } else {
            "d-shark_block_"@ + spec_quad_name(net.addr) + seq!['/'] + decimal_digits(
                net.prefix as nat,
            )
        },
        IpNet::V6(net) => "d-shark_block_"@ + net.spec_text(),
    }
}

/// A text as it stands between single quotes in a command: each single
/// quote of it is written twice, so that none of them ends the quoted text.
pub open spec fn spec_escaped(text: Seq<char>) -> Seq<char>
    decreases text.len(),
{
    if text.len() == 0 {
        Seq::empty()
    } else if text.last() == '\'' {
        spec_escaped(text.drop_last()) + seq!['\'', '\'']
    } else {
        spec_escaped(text.drop_last()) + seq![text.last()]
    }
}

/// The command that creates the rule that blocks `ip`. The reason is its
/// description, between single quotes and escaped.
pub open spec fn spec_block_command(ip: IpNet, reason: Option<Seq<char>>) -> Seq<char> {
    let base = "New-NetFirewallRule -DisplayName '"@ + spec_rule_name(ip)
        + "' -Direction Inbound -RemoteAddress "@ + ip.spec_text()
        + " -Action Block -Protocol Any -Profile Any"@;
    match reason {
        Some(text) => base + " -Description '"@ + spec_escaped(text) + "'"@,
        None => base,
    }
}

/// The command that removes the rule of a display name, which stands between
/// single quotes and escaped.
pub open spec fn spec_remove_command(name: Seq<char>) -> Seq<char> {
    "Remove-NetFirewallRule -DisplayName '"@ + spec_escaped(name)
        + "' -ErrorAction SilentlyContinue"@
}

/// Appends `text` to `out` as it stands between single quotes.
pub fn append_escaped(out: &mut String, text: &str)
    ensures
        final(out)@ == old(out)@ + spec_escaped(text@),
{
    let n = text.unicode_len();
    let mut i: usize = 0;
    assert(text@.take(0) =~= Seq::<char>::empty());
    while i < n
        invariant
            i <= n,
            n == text@.len(),
            out@ == old(out)@ + spec_escaped(text@.take(i as int)),
        decreases n - i,
    {
        let c = text.get_char(i);
        proof {
            let next = text@.take(i + 1);
            assert(next.drop_last() =~= text@.take(i as int));
            assert(next.last() == c);
        }
        if c == '\'' {
            out.append("''");
            proof {
                reveal_strlit("''");
                assert("''"@ =~= seq!['\'', '\'']);
            }
        } else {
            let one = text.substring_char(i, i + 1);
            assert(one@ =~= seq![c]);
            out.append(one);
        }
        i = i + 1;
        assert(out@ =~= old(out)@ + spec_escaped(text@.take(i as int)));
    }
    assert(text@.take(i as int) =~= text@);
}

/// The display name of the rule that blocks `ip`.
pub fn rule_name(ip: &IpNet) -> (r: String)
    ensures
        r@ == spec_rule_name(*ip),
{
    let mut out = String::from_str("d-shark_block_");
    match ip {
        IpNet::V4(net) => {
            append_decimal(&mut out, (net.addr / 0x100_0000) as u64);
            out.append("_");
            append_decimal(&mut out, (net.addr / 0x1_0000 % 0x100) as u64);
            out.append("_");
            append_decimal(&mut out, (net.addr / 0x100 % 0x100) as u64);
            out.append("_");
            append_decimal(&mut out, (net.addr % 0x100) as u64);
            proof {
                reveal_strlit("_");
                assert("_"@ =~= seq!['_']);
                assert(out@ =~= "d-shark_block_"@ + spec_quad_name(net.addr));
            }
            if net.prefix != 32 {
                out.append("/");
                append_decimal(&mut out, net.prefix as u64);
                proof {
                    reveal_strlit("/");
                    assert("/"@ =~= seq!['/']);
                    assert(out@ =~= spec_rule_name(*ip));
                }
            }
        },
        IpNet::V6(net) => {
            let text = net.to_text();
            out.append(text.as_str());
        },
    }
    out
}

/// The command that creates the rule that blocks `ip`, with `reason` as its
/// description.
pub fn block_command(ip: &IpNet, reason: Option<&str>) -> (r: String)
    ensures
        r@ == spec_block_command(*ip, crate::gateway::str_view(reason)),
{
    let mut out = String::from_str("New-NetFirewallRule -DisplayName '");
    let name = rule_name(ip);
    out.append(name.as_str());
    out.append("' -Direction Inbound -RemoteAddress ");
    let text = ip.to_text();
    out.append(text.as_str());
    out.append(" -Action Block -Protocol Any -Profile Any");
    match reason {
        Some(why) => {
            out.append(" -Description '");
            append_escaped(&mut out, why);
            out.append("'");
        },
        None => {},
    }
    out
}

/// The command that removes the rule of a display name. It succeeds where no
/// such rule exists.
pub fn remove_command(name: &str) -> (r: String)
    ensures
        r@ == spec_remove_command(name@),
{
    let mut out = String::from_str("Remove-NetFirewallRule -DisplayName '");
    append_escaped(&mut out, name);
    out.append("' -ErrorAction SilentlyContinue");
    out
}

/// The command that switches every profile of the firewall on or off.
pub fn profile_command(enabled: bool) -> (r: &'static str)
    ensures
        r@ == (if enabled {
            "Set-NetFirewallProfile -Profile Domain,Public,Private -Enabled True"@
        } else {
            "Set-NetFirewallProfile -Profile Domain,Public,Private -Enabled False"@
        }),
{
    if enabled {
        "Set-NetFirewallProfile -Profile Domain,Public,Private -Enabled True"
    } else {
        "Set-NetFirewallProfile -Profile Domain,Public,Private -Enabled False"
    }
}

/// The command that counts the rules of the firewall, all of them or those
/// that block.
pub fn count_command(blocking_only: bool) -> (r: &'static str)
    ensures
        r@ == (if blocking_only {
            "Get-NetFirewallRule | Where-Object {$_.Action -eq 'Block'} | Measure-Object | Select-Object -ExpandProperty Count"@
        } else {
            "Get-NetFirewallRule | Measure-Object | Select-Object -ExpandProperty Count"@
        }),
{
    if blocking_only {
        "Get-NetFirewallRule | Where-Object {$_.Action -eq 'Block'} | Measure-Object | Select-Object -ExpandProperty Count"
    } else {
        "Get-NetFirewallRule | Measure-Object | Select-Object -ExpandProperty Count"
    }
}

/// `c` is a blank: a space, or one of the control characters from tab to
/// carriage return.
pub open spec fn is_blank(c: char) -> bool {
    c == ' ' || ('\t' <= c <= '\r')
}

/// How many blanks `s` starts with.
pub open spec fn blank_run(s: Seq<char>) -> nat
    decreases s.len(),
{
    if s.len() > 0 && is_blank(s[0]) {
        1 + blank_run(s.drop_first())
    } else {
        0
    }
}

/// `s` without the blanks at its end.
pub open spec fn trim_end(s: Seq<char>) -> Seq<char>
    decreases s.len(),
{
    if s.len() > 0 && is_blank(s.last()) {
        trim_end(s.drop_last())
    } else {
        s
    }
}

/// `s` without the blanks at its start and at its end.
pub open spec fn trimmed(s: Seq<char>) -> Seq<char> {
    trim_end(s.skip(blank_run(s) as int))
}

/// The count that the output of a counting command holds: the decimal
/// number that is left when the blanks around it are taken away, which one
/// `+` may precede. 0 where the output holds anything else, and where the
/// number is more than a `u64` holds.
pub open spec fn spec_parse_count(s: Seq<char>) -> u64 {
    let t = trimmed(s);
    let digits = if t.len() > 0 && t[0] == '+' {
        t.skip(1)
    } else {
        t
    };
    if digits.len() > 0 && all_digits(digits) && decimal_value(digits) <= u64::MAX {
        decimal_value(digits) as u64
    } else {
        0
    }
}

/// Whether a byte is a blank.
fn blank_byte(b: u8) -> (r: bool)
    ensures
        r == is_blank(b as char),
{
    b == 32 || (9 <= b && b <= 13)
}

/// The blanks at the start of `s` end at `n`.
proof fn lemma_blank_run(s: Seq<char>, n: int)
    requires
        0 <= n <= s.len(),
        forall|j: int| 0 <= j < n ==> is_blank(#[trigger] s[j]),
        n < s.len() ==> !is_blank(s[n]),
    ensures
        blank_run(s) == n,
    decreases s.len(),
{
    if n > 0 {
        assert(is_blank(s[0]));
        let rest = s.drop_first();
        assert forall|j: int| 0 <= j < n - 1 implies is_blank(#[trigger] rest[j]) by {
            assert(rest[j] == s[j + 1]);
        }
        lemma_blank_run(rest, n - 1);
    }
}

/// The blanks at the end of `s` start at `n`.
proof fn lemma_trim_end(s: Seq<char>, n: int)
    requires
        0 <= n <= s.len(),
        forall|j: int| n <= j < s.len() ==> is_blank(#[trigger] s[j]),
        n > 0 ==> !is_blank(s[n - 1]),
    ensures
        trim_end(s) == s.take(n),
    decreases s.len(),
{
    if n == s.len() {
        assert(s.take(n) =~= s);
    } else {
        assert(is_blank(s.last()));
        let init = s.drop_last();
        assert forall|j: int| n <= j < init.len() implies is_blank(#[trigger] init[j]) by {
            assert(init[j] == s[j]);
        }
        lemma_trim_end(init, n);
        assert(init.take(n) =~= s.take(n));
    }
}

/// Reads the count that a counting command printed.
pub fn parse_count(output: &[u8]) -> (r: u64)
    ensures
        r == spec_parse_count(chars_of(output@)),
{
    let ghost s = chars_of(output@);
    let n = output.len();
    let mut start: usize = 0;
    while start < n && blank_byte(output[start])
        invariant
            start <= n,
            n == output@.len(),
            s == chars_of(output@),
            forall|j: int| 0 <= j < start ==> is_blank(#[trigger] s[j]),
        decreases n - start,
    {
        start = start + 1;
    }
    proof {
        lemma_blank_run(s, start as int);
    }
    let ghost t = s.skip(start as int);
    let mut end: usize = n;
    while end > start && blank_byte(output[end - 1])
        invariant
            start <= end <= n,
            n == output@.len(),
            s == chars_of(output@),
            t == s.skip(start as int),
            forall|j: int| end - start <= j < t.len() ==> is_blank(#[trigger] t[j]),
        decreases end,
    {
        end = end - 1;
    }
    proof {
        if end > start {
            assert(t[end - start - 1] == s[end - 1]);
        }
        lemma_trim_end(t, end - start);
        assert(trimmed(s) =~= s.subrange(start as int, end as int));
    }
    let ghost trim = s.subrange(start as int, end as int);
    let from: usize = if end > start && output[start] == 43 {
        start + 1
    } else {
        start
    };
    proof {
        if end > start {
            assert(trim[0] == s[start as int]);
        }
        let digits = if trim.len() > 0 && trim[0] == '+' {
            trim.skip(1)
        } else {
            trim
        };
        assert(digits =~= s.subrange(from as int, end as int));
    }
    match parse_digits(output, from, end) {
        Some(v) => v,
        None => 0,
    }
}

/// What the run of a command comes to: done where the command succeeded,
/// and where it failed a refusal that says what failed and what the command
/// wrote to its error output.
pub fn command_outcome(success: bool, failure: &str, stderr: &str) -> (r: Result<
    (),
    BackendError,
>)
    ensures
        success <==> r is Ok,
        r matches Err(error) ==> error matches BackendError::Rejected(text) && text@ == failure@
            + ": "@ + stderr@,
{
    if success {
        Ok(())
    } else {
        let mut text = String::from_str(failure);
        text.append(": ");
        text.append(stderr);
        Err(BackendError::Rejected(text))
    }
}

/// What the run of a counting command comes to: the count it printed where
/// it succeeded, and 0 where it failed.
pub fn count_outcome(success: bool, stdout: &[u8]) -> (r: u64)
    ensures
        r == (if success {
            spec_parse_count(chars_of(stdout@))
        } else {
            0
        }),
{
    if success {
        parse_count(stdout)
    } else {
        0
    }
}

} // verus!
