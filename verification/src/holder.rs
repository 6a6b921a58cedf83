//! Who is holding a schema, and whether they are still there.

use vstd::prelude::*;

use crate::number::{
    decimal, law_a_number_is_read_from_its_digits, law_decimal_is_read_back, lemma_decimal_digits, number_in,
    read_number, write_decimal,
};
use crate::text::{
    chars_of, join, lemma_split_free, lemma_split_join, replace, replace_chars, split, split_chars,
    string_of, trim, trimmed, views,
};

verus! {

/// A claim on a schema: which machine, which boot of it, which process.
#[derive(Debug, Clone, PartialEq, Eq)]
pub struct Holder {
    pub host: String,
    pub boot: String,
    pub pid: u32,
}

/// What a claim says.
#[verifier::ext_equal]
pub struct Claim {
    pub host: Seq<char>,
    pub boot: Seq<char>,
    pub pid: u32,
}

impl View for Holder {
    type V = Claim;

    open spec fn view(&self) -> Claim {
        Claim { host: self.host@, boot: self.boot@, pid: self.pid }
    }
}

/// A claim written down.
pub open spec fn written(claim: Claim) -> Seq<char> {
    claim.host + seq!['/'] + claim.boot + seq!['/'] + decimal(claim.pid as nat)
}

/// The claim that a text is, if it is one: three pieces between slashes, the
/// last of them a number.
pub open spec fn claim_in(text: Seq<char>) -> Option<Claim> {
    let pieces = split(text, '/');
    if pieces.len() != 3 {
        None
    } else {
        match number_in(pieces[2]) {
            Some(pid) => Some(Claim { host: pieces[0], boot: pieces[1], pid }),
            None => None,
        }
    }
}

/// What a text says once the white space around it is gone, or `otherwise`
/// where that is nothing.
pub open spec fn said_or(said: Option<Seq<char>>, otherwise: Seq<char>) -> Seq<char> {
    match said {
        Some(text) if text.len() > 0 => text,
        _ => otherwise,
    }
}

/// The machine's name: what its kernel calls it, or `unknown`.
pub open spec fn host_of(hostname: Option<String>) -> Seq<char> {
    said_or(
        match hostname {
            Some(text) => Some(trimmed(text@)),
            None => None,
        },
        "unknown"@,
    )
}

/// This boot's name: the kernel's id for it without the dashes, or `noboot`.
pub open spec fn boot_of(boot_id: Option<String>) -> Seq<char> {
    said_or(
        match boot_id {
            Some(text) => Some(replace(trimmed(text@), seq!['-'], Seq::<char>::empty())),
            None => None,
        },
        "noboot"@,
    )
}

/// Whether a claim belongs to a process that has finished, as `me` sees it.
/// `running` says whether a process with the claim's number is running on
/// this machine; nothing where the machine cannot say.
pub open spec fn is_gone(claim: Claim, me: Claim, running: Option<bool>) -> Option<bool> {
    if claim.host != me.host || claim.boot != me.boot {
        None
    } else if claim.pid == me.pid {
        Some(false)
    } else {
        match running {
            Some(there) => Some(!there),
            None => None,
        }
    }
}

impl Holder {
    /// The claim of a process: what the kernel says of the machine's name and
    /// of this boot, where it says anything, and the process's number.
    pub fn me(hostname: Option<String>, boot_id: Option<String>, pid: u32) -> (r: Holder)
        ensures
            r@ == (Claim { host: host_of(hostname), boot: boot_of(boot_id), pid }),
    {
        let mut host = "unknown".to_owned();
        if let Some(text) = hostname {
            let name = trim(text.as_str());
            if !name.as_str().is_empty() {
                host = name;
            }
        }
        let mut boot = "noboot".to_owned();
        if let Some(text) = boot_id {
            let id = chars_of(trim(text.as_str()).as_str());
            let dash: Vec<char> = vec!['-'];
            let nothing: Vec<char> = Vec::new();
            proof {
                assert(dash@ =~= seq!['-']);
            }
            let id = replace_chars(id.as_slice(), dash.as_slice(), nothing.as_slice());
            if id.len() > 0 {
                boot = string_of(id.as_slice());
            }
        }
        Holder { host, boot, pid }
    }

    /// The claim that a text is, if it is one.
    pub fn parse(text: &str) -> (r: Option<Holder>)
        ensures
            (match r {
                Some(holder) => Some(holder@),
                None => None,
            }) == claim_in(text@),
    {
        let pieces = split_chars(chars_of(text).as_slice(), '/');
        proof {
            assert(views(pieces@).len() == pieces@.len());
        }
        if pieces.len() != 3 {
            return None;
        }
        match read_number(pieces[2].as_slice()) {
            Some(pid) => Some(
                Holder {
                    host: string_of(pieces[0].as_slice()),
                    boot: string_of(pieces[1].as_slice()),
                    pid,
                },
            ),
            None => None,
        }
    }

    /// The claim written down.
    pub fn to_string(&self) -> (r: String)
        ensures
            r@ == written(self@),
    {
        let mut r = String::new();
        r.append(self.host.as_str());
        r.push('/');
        r.append(self.boot.as_str());
        r.push('/');
        write_decimal(&mut r, self.pid as u64);
        proof {
            assert(r@ =~= written(self@));
        }
        r
    }

    /// Whether this claim belongs to a process that has finished.
    ///
    /// `None` when there is no way to know: another machine, or the same one
    /// since restarted. A pid on its own would say yes here and be wrong: the
    /// numbers come round again, and a live process would be robbed of a
    /// schema it is in the middle of using. What cannot be answered is left
    /// to the lease's age instead.
    ///
    /// `me` is the process that asks, and `running` whether a process with
    /// this claim's number is running here, where the machine can say.
    pub fn gone(&self, me: &Holder, running: Option<bool>) -> (r: Option<bool>)
        ensures
            r == is_gone(self@, me@, running),
    {
        if self.host != me.host || self.boot != me.boot {
            return None;
        }
        if self.pid == me.pid {
            return Some(false);
        }
        match running {
            Some(there) => Some(!there),
            None => None,
        }
    }
}

/// A claim survives being written down, as long as neither name in it holds
/// a slash; and no claim does whose names hold one.
pub proof fn law_a_claim_survives_being_written_down(claim: Claim)
    ensures
        claim_in(written(claim)) == Some(claim) <==> !claim.host.contains('/') && !claim.boot.contains('/'),
{
    let parts = seq![claim.host, claim.boot, decimal(claim.pid as nat)];
    let whole = written(claim);
    if claim.host.contains('/') || claim.boot.contains('/') {
        lemma_split_free(whole, '/');
    } else {
        lemma_decimal_digits(claim.pid as nat);
        assert forall|i: int| 0 <= i < parts.len() implies !(#[trigger] parts[i]).contains('/') by {}
        lemma_split_join(parts, '/');
        reveal_with_fuel(join, 4);
        assert(parts.drop_last() =~= seq![claim.host, claim.boot]);
        assert(parts.drop_last().drop_last() =~= seq![claim.host]);
        assert(join(parts, seq!['/']) =~= whole);
        law_decimal_is_read_back(claim.pid);
    }
}

/// Whatever is read as a claim names a machine and a boot without a slash, so
/// it survives being written down again.
pub proof fn law_what_is_read_is_read_again(text: Seq<char>)
    requires
        claim_in(text) is Some,
    ensures
        claim_in(written(claim_in(text)->0)) == claim_in(text),
{
    lemma_split_free(text, '/');
    law_a_claim_survives_being_written_down(claim_in(text)->0);
}

/// A process never takes itself to be gone, and a claim from another machine
/// or another boot is never judged by its number.
pub proof fn law_only_this_boot_is_judged(claim: Claim, me: Claim, running: Option<bool>)
    ensures
        is_gone(me, me, running) == Some(false),
        claim.host != me.host || claim.boot != me.boot ==> is_gone(claim, me, running) is None,
        is_gone(claim, me, running) == Some(true) ==> running == Some(false),
{
}

/// A claim is a machine, a boot and a number with a slash between each two,
/// and nothing else is one.
pub proof fn law_a_claim_is_three_pieces(text: Seq<char>, host: Seq<char>, boot: Seq<char>, digits: Seq<char>)
    ensures
        written(Claim { host, boot, pid: 0 }) == host + "/"@ + boot + "/"@ + "0"@,
        forall|pid: u32| #[trigger]
            written(Claim { host, boot, pid }) == host + "/"@ + boot + "/"@ + decimal(pid as nat),
        !host.contains('/') && !boot.contains('/') && number_in(digits) is Some ==> claim_in(
            host + "/"@ + boot + "/"@ + digits,
        ) == Some(Claim { host, boot, pid: number_in(digits)->0 }),
        claim_in(text) is Some ==> exists|number: Seq<char>| #[trigger]
            number_in(number) == Some(claim_in(text)->0.pid) && text == claim_in(text)->0.host + "/"@ + claim_in(
                text,
            )->0.boot + "/"@ + number && !claim_in(text)->0.host.contains('/') && !claim_in(
                text,
            )->0.boot.contains('/'),
{
    reveal_strlit("/");
    reveal_strlit("0");
    assert("/"@ =~= seq!['/']);
    assert("0"@ =~= decimal(0));
    reveal_with_fuel(join, 4);
    if !host.contains('/') && !boot.contains('/') && number_in(digits) is Some {
        law_a_number_is_read_from_its_digits(digits, Seq::<char>::empty(), 0);
        let some = choose|some: Seq<char>|
            (forall|i: int| 0 <= i < some.len() ==> #[trigger] some[i] == '0') && (digits == #[trigger] (some
                + decimal(number_in(digits)->0 as nat)) || digits == seq!['+'] + (some + decimal(
                number_in(digits)->0 as nat,
            )));
        lemma_decimal_digits(number_in(digits)->0 as nat);
        let tail = decimal(number_in(digits)->0 as nat);
        assert(!digits.contains('/')) by {
            if digits.contains('/') {
                let i = choose|i: int| 0 <= i < digits.len() && digits[i] == '/';
                let j = if digits == some + tail {
                    i
                } else {
                    i - 1
                };
                if j >= 0 {
                    if j < some.len() {
                        assert(some[j] == '/');
                    } else {
                        assert(tail[j - some.len()] == '/');
                    }
                }
            }
        }
        let parts = seq![host, boot, digits];
        assert forall|i: int| 0 <= i < parts.len() implies !(#[trigger] parts[i]).contains('/') by {}
        lemma_split_join(parts, '/');
        assert(parts.drop_last() =~= seq![host, boot]);
        assert(parts.drop_last().drop_last() =~= seq![host]);
        assert(join(parts, seq!['/']) =~= host + "/"@ + boot + "/"@ + digits);
    }
    if claim_in(text) is Some {
        let pieces = split(text, '/');
        crate::text::lemma_join_split(text, '/');
        lemma_split_free(text, '/');
        assert(pieces =~= seq![pieces[0], pieces[1], pieces[2]]);
        assert(pieces.drop_last() =~= seq![pieces[0], pieces[1]]);
        assert(pieces.drop_last().drop_last() =~= seq![pieces[0]]);
        assert(text =~= pieces[0] + "/"@ + pieces[1] + "/"@ + pieces[2]);
        assert(number_in(pieces[2]) == Some(claim_in(text)->0.pid));
    }
}

/// On this boot of this machine, any process but the one that asks is gone
/// exactly where the machine says that none of its number runs, whatever the
/// two numbers are, and there exactly where the machine says that one does.
/// Where the machine cannot say, nobody can; and nobody can of another machine
/// or another boot.
pub proof fn law_a_process_is_judged_by_whether_it_runs(claim: Claim, me: Claim, running: Option<bool>)
    ensures
        claim.host == me.host && claim.boot == me.boot && claim.pid != me.pid && running == Some(false)
            <==> is_gone(claim, me, running) == Some(true),
        claim.host == me.host && claim.boot == me.boot && (claim.pid == me.pid || running == Some(true))
            <==> is_gone(claim, me, running) == Some(false),
        (claim.host != me.host || claim.boot != me.boot || (claim.pid != me.pid && running is None))
            <==> is_gone(claim, me, running) is None,
{
}

proof fn lemma_dashes_out(s: Seq<char>)
    ensures
        replace(s, seq!['-'], Seq::<char>::empty()) == s.filter(|c: char| c != '-'),
    decreases s.len(),
{
    let keep = |c: char| c != '-';
    reveal_with_fuel(Seq::filter, 2);
    if s.len() > 0 {
        let rest = s.skip(1);
        lemma_dashes_out(rest);
        assert(s =~= seq![s[0]] + rest);
        Seq::filter_distributes_over_add(seq![s[0]], rest, keep);
        assert(s.take(1) =~= seq![s[0]]);
        assert(seq![s[0]].drop_last() =~= Seq::<char>::empty());
        if s[0] == '-' {
            assert(s.take(1) =~= seq!['-']);
            assert(seq![s[0]].filter(keep) =~= Seq::<char>::empty());
            assert(Seq::<char>::empty() + replace(rest, seq!['-'], Seq::<char>::empty()) =~= rest.filter(keep));
            assert(Seq::<char>::empty() + rest.filter(keep) =~= rest.filter(keep));
        } else {
            assert(s.take(1)[0] != seq!['-'][0]);
            assert(seq![s[0]].filter(keep) =~= seq![s[0]]);
        }
    } else {
        assert(s =~= Seq::<char>::empty());
    }
}

/// A process calls its machine what the kernel calls it, less the white space
/// around that, and its boot by the kernel's id for it, less the white space
/// and every dash; where that leaves nothing, or the kernel says nothing, it
/// has a name for each all the same.
pub proof fn law_a_process_says_where_it_runs(said: String)
    ensures
        host_of(None) == "unknown"@,
        boot_of(None) == "noboot"@,
        trimmed(said@).len() == 0 ==> host_of(Some(said)) == "unknown"@ && boot_of(Some(said)) == "noboot"@,
        trimmed(said@).len() > 0 ==> host_of(Some(said)) == trimmed(said@),
        ({
            let id = trimmed(said@).filter(|c: char| c != '-');
            boot_of(Some(said)) == if id.len() > 0 {
                id
            } else {
                "noboot"@
            }
        }),
{
    lemma_dashes_out(trimmed(said@));
    if trimmed(said@).len() == 0 {
        reveal_with_fuel(Seq::filter, 1);
    }
}

} // verus!
