//! Test programs for the replicas: each step of a program is a kind of
//! request pattern (a normal broadcast, one replica skipped, one replica sent
//! a corrupted payload, or one replica sent extra requests), which becomes
//! the requests a client sends for that step.
use vstd::prelude::*;
use vstd::string::*;

verus! {

/// One step of a test program.
pub enum Kind {
    /// The same request to every replica.
    Normal,
    /// The request to every replica but `to`.
    Skip { to: u64 },
    /// The request to every replica, but `value` in place of the payload to `to`.
    Corrupt { value: String, to: u64 },
    /// `n` extra requests to `to`, then the request to every replica.
    Additional { to: u64, n: u64 },
}

/// The number of extra requests when a program leaves it out.
pub fn default_n() -> (r: u64)
    ensures
        r == 1,
{
    1
}

/// How many distinct requests the replicas answer for a step under the
/// second failure model.
pub open spec fn expected_replies(k: Kind) -> nat {
    match k {
        Kind::Normal => 1,
        Kind::Skip { .. } => 1,
        Kind::Corrupt { .. } => 2,
        Kind::Additional { n, .. } => n as nat + 1,
    }
}

/// The number of replies that a whole program expects.
pub open spec fn program_replies(p: Seq<Kind>) -> nat
    decreases p.len(),
{
    if p.len() == 0 {
        0
    } else {
        program_replies(p.drop_last()) + expected_replies(p.last())
    }
}

/// The replies of a program are those of its first part and of the rest.
pub proof fn lemma_program_replies_append(a: Seq<Kind>, b: Seq<Kind>)
    ensures
        program_replies(a + b) == program_replies(a) + program_replies(b),
    decreases b.len(),
{
    if b.len() == 0 {
        assert(a + b =~= a);
    } else {
        assert((a + b).drop_last() =~= a + b.drop_last());
        lemma_program_replies_append(a, b.drop_last());
    }
}

/// A prefix of a program expects no more replies than the program.
pub proof fn lemma_program_replies_prefix(p: Seq<Kind>, i: int)
    requires
        0 <= i <= p.len(),
    ensures
        program_replies(p.take(i)) <= program_replies(p),
{
    lemma_program_replies_append(p.take(i), p.skip(i));
    assert(p.take(i) + p.skip(i) =~= p);
}

/// A request that a client sends: from `source` to `destination`, with
/// sequence number `sequence`, as a transaction of `payload`.
pub struct Outgoing {
    pub source: u64,
    pub destination: u64,
    pub sequence: u64,
    pub payload: String,
}

pub struct OutgoingModel {
    pub source: u64,
    pub destination: u64,
    pub sequence: u64,
    pub payload: Seq<char>,
}

impl View for Outgoing {
    type V = OutgoingModel;

    open spec fn view(&self) -> OutgoingModel {
        OutgoingModel {
            source: self.source,
            destination: self.destination,
            sequence: self.sequence,
            payload: self.payload@,
        }
    }
}

pub open spec fn outgoing_list(v: Seq<Outgoing>) -> Seq<OutgoingModel> {
    v.map_values(|m: Outgoing| m@)
}

pub open spec fn msg(source: u64, destination: u64, sequence: u64, payload: Seq<char>) -> OutgoingModel {
    OutgoingModel { source, destination, sequence, payload }
}

/// The decimal digit `d`.
pub open spec fn digit_char(d: nat) -> char {
    if d == 0 {
        '0'
    } else if d == 1 {
        '1'
    } else if d == 2 {
        '2'
    } else if d == 3 {
        '3'
    } else if d == 4 {
        '4'
    } else if d == 5 {
        '5'
    } else if d == 6 {
        '6'
    } else if d == 7 {
        '7'
    } else if d == 8 {
        '8'
    } else {
        '9'
    }
}

/// `n` in decimal, without leading zeros.
pub open spec fn decimal(n: nat) -> Seq<char>
    decreases n,
{
    if n < 10 {
        seq![digit_char(n)]
    } else {
        decimal(n / 10).push(digit_char(n % 10))
    }
}

/// The payload of the `j`-th extra request: the step's payload, `extra` and `j`.
pub open spec fn extra_payload(payload: Seq<char>, j: nat) -> Seq<char> {
    payload + seq!['e', 'x', 't', 'r', 'a'] + decimal(j)
}

/// The request to each of `replicas` replicas in turn; from `source` where
/// `from_self` is false, and from the replica itself where it is true.
pub open spec fn broadcast_model(from_self: bool, source: u64, sequence: u64, replicas: u64, payload: Seq<char>) -> Seq<OutgoingModel> {
    Seq::new(replicas as nat, |i: int| msg(if from_self { i as u64 } else { source }, i as u64, sequence, payload))
}

/// The requests for one step of a program, with the step's sequence number
/// and payload, to `replicas` replicas. Under the second failure model
/// (`fm2`) each request is sent as if from the replica it goes to;
/// otherwise from client 0.
pub open spec fn step_messages(k: Kind, fm2: bool, sequence: u64, payload: Seq<char>, replicas: u64) -> Seq<OutgoingModel> {
    let all = broadcast_model(fm2, 0, sequence, replicas, payload);
    match k {
        Kind::Normal => all,
        Kind::Skip { to } => if to < replicas {
            all.remove(to as int)
        } else {
            all
        },
        Kind::Corrupt { value, to } => if to < replicas {
            all.update(to as int, msg(if fm2 { to } else { 0 }, to, sequence, value@))
        } else {
            all
        },
        Kind::Additional { to, n } => Seq::new(
            n as nat,
            |j: int| msg(if fm2 { to } else { 0 }, to, sequence, extra_payload(payload, j as nat)),
        ) + all,
    }
}

/// The decimal digit `d`, as text.
fn digit_str(d: u64) -> (r: &'static str)
    requires
        d < 10,
    ensures
        r@ == seq![digit_char(d as nat)],
{
    if d == 0 {
        proof {
            reveal_strlit("0");
        }
        "0"
    } else if d == 1 {
        proof {
            reveal_strlit("1");
        }
        "1"
    } else if d == 2 {
        proof {
            reveal_strlit("2");
        }
        "2"
    } else if d == 3 {
        proof {
            reveal_strlit("3");
        }
        "3"
    } else if d == 4 {
        proof {
            reveal_strlit("4");
        }
        "4"
    } else if d == 5 {
        proof {
            reveal_strlit("5");
        }
        "5"
    } else if d == 6 {
        proof {
            reveal_strlit("6");
        }
        "6"
    } else if d == 7 {
        proof {
            reveal_strlit("7");
        }
        "7"
    } else if d == 8 {
        proof {
            reveal_strlit("8");
        }
        "8"
    } else {
        proof {
            reveal_strlit("9");
        }
        "9"
    }
}

/// Appends `n` in decimal to `s`.
pub fn append_decimal(s: &mut String, n: u64)
    ensures
        final(s)@ == old(s)@ + decimal(n as nat),
    decreases n,
{
    if n >= 10 {
        append_decimal(s, n / 10);
    }
    s.append(digit_str(n % 10));
    assert(decimal(n as nat) =~= if n < 10 {
        seq![digit_char(n as nat)]
    } else {
        decimal((n / 10) as nat).push(digit_char((n % 10) as nat))
    });
}

/// The payload of the `j`-th extra request.
fn make_extra_payload(payload: &String, j: u64) -> (r: String)
    ensures
        r@ == extra_payload(payload@, j as nat),
{
    let mut s = payload.clone();
    proof {
        reveal_strlit("extra");
    }
    s.append("extra");
    append_decimal(&mut s, j);
    assert(s@ =~= extra_payload(payload@, j as nat));
    s
}

fn message(source: u64, destination: u64, sequence: u64, payload: &String) -> (r: Outgoing)
    ensures
        r@ == msg(source, destination, sequence, payload@),
{
    Outgoing { source, destination, sequence, payload: payload.clone() }
}

impl Kind {
    /// How many distinct requests the replicas answer for this step under
    /// the second failure model.
    pub fn expected_fm2(&self) -> (r: usize)
        requires
            expected_replies(*self) <= usize::MAX,
        ensures
            r == expected_replies(*self),
    {
        match self {
            Kind::Normal => 1,
            Kind::Skip { .. } => 1,
            Kind::Corrupt { .. } => 2,
            Kind::Additional { n, .. } => *n as usize + 1,
        }
    }

    /// The requests of this step, from client 0.
    pub fn create_messages(&self, sequence: u64, payload: String, replicas: u64) -> (r: Vec<Outgoing>)
        ensures
            outgoing_list(r@) == step_messages(*self, false, sequence, payload@, replicas),
    {
        self.step(false, sequence, &payload, replicas)
    }

    /// The requests of this step, each as if from the replica it goes to.
    pub fn create_messages_fm2(&self, sequence: u64, payload: String, replicas: u64) -> (r: Vec<Outgoing>)
        ensures
            outgoing_list(r@) == step_messages(*self, true, sequence, payload@, replicas),
    {
        self.step(true, sequence, &payload, replicas)
    }

    fn step(&self, fm2: bool, sequence: u64, payload: &String, replicas: u64) -> (r: Vec<Outgoing>)
        ensures
            outgoing_list(r@) == step_messages(*self, fm2, sequence, payload@, replicas),
    {
        let ghost all = broadcast_model(fm2, 0, sequence, replicas, payload@);
        let mut msgs: Vec<Outgoing> = Vec::new();
        match self {
            Kind::Additional { to, n } => {
                let mut j: u64 = 0;
                while j < *n
                    invariant
                        j <= *n,
                        outgoing_list(msgs@) == Seq::new(
                            j as nat,
                            |k: int| msg(if fm2 { *to } else { 0 }, *to, sequence, extra_payload(payload@, k as nat)),
                        ),
                    decreases *n - j,
                {
                    let extra = make_extra_payload(payload, j);
                    let source = if fm2 { *to } else { 0 };
                    let ghost before = msgs@;
                    let m = Outgoing { source, destination: *to, sequence, payload: extra };
                    msgs.push(m);
                    assert(msgs@ =~= before.push(m));
                    assert(outgoing_list(msgs@) =~= outgoing_list(before).push(m@));
                    j = j + 1;
                    assert(outgoing_list(msgs@) =~= Seq::new(
                        j as nat,
                        |k: int| msg(if fm2 { *to } else { 0 }, *to, sequence, extra_payload(payload@, k as nat)),
                    ));
                }
            },
            _ => {},
        }
        let ghost extras = outgoing_list(msgs@);
        let mut i: u64 = 0;
        while i < replicas
            invariant
                i <= replicas,
                all == broadcast_model(fm2, 0, sequence, replicas, payload@),
                outgoing_list(msgs@) == extras + step_messages_upto(*self, fm2, sequence, payload@, replicas, i),
            decreases replicas - i,
        {
            let source = if fm2 { i } else { 0 };
            let ghost before = msgs@;
            let ghost added: Seq<OutgoingModel>;
            match self {
                Kind::Skip { to } => {
                    if i != *to {
                        let m = message(source, i, sequence, payload);
                        proof {
                            added = seq![m@];
                        }
                        msgs.push(m);
                    } else {
                        proof {
                            added = Seq::empty();
                        }
                    }
                },
                Kind::Corrupt { value, to } => {
                    let m = if i == *to {
                        message(source, i, sequence, value)
                    } else {
                        message(source, i, sequence, payload)
                    };
                    proof {
                        added = seq![m@];
                    }
                    msgs.push(m);
                },
                _ => {
                    let m = message(source, i, sequence, payload);
                    proof {
                        added = seq![m@];
                    }
                    msgs.push(m);
                },
            }
            assert(outgoing_list(msgs@) =~= outgoing_list(before) + added);
            proof {
                lemma_step_upto_next(*self, fm2, sequence, payload@, replicas, i);
            }
            assert(outgoing_list(msgs@) =~= extras + step_messages_upto(*self, fm2, sequence, payload@, replicas, (i + 1) as u64));
            i = i + 1;
        }
        proof {
            lemma_step_upto_all(*self, fm2, sequence, payload@, replicas);
            match self {
                Kind::Additional { .. } => {},
                _ => {
                    assert(extras =~= Seq::<OutgoingModel>::empty());
                },
            }
        }
        msgs
    }
}

/// The requests of a step to the replicas below `i`, without the extras.
pub open spec fn step_messages_upto(k: Kind, fm2: bool, sequence: u64, payload: Seq<char>, replicas: u64, i: u64) -> Seq<OutgoingModel>
    decreases i,
{
    if i == 0 {
        Seq::empty()
    } else {
        let j = (i - 1) as u64;
        let source = if fm2 { j } else { 0 };
        step_messages_upto(k, fm2, sequence, payload, replicas, j) + match k {
            Kind::Skip { to } => if j == to {
                Seq::empty()
            } else {
                seq![msg(source, j, sequence, payload)]
            },
            Kind::Corrupt { value, to } => if j == to {
                seq![msg(source, j, sequence, value@)]
            } else {
                seq![msg(source, j, sequence, payload)]
            },
            _ => seq![msg(source, j, sequence, payload)],
        }
    }
}

proof fn lemma_step_upto_next(k: Kind, fm2: bool, sequence: u64, payload: Seq<char>, replicas: u64, i: u64)
    requires
        i < replicas,
    ensures
        step_messages_upto(k, fm2, sequence, payload, replicas, (i + 1) as u64) == step_messages_upto(
            k,
            fm2,
            sequence,
            payload,
            replicas,
            i,
        ) + match k {
            Kind::Skip { to } => if i == to {
                Seq::empty()
            } else {
                seq![msg(if fm2 { i } else { 0 }, i, sequence, payload)]
            },
            Kind::Corrupt { value, to } => if i == to {
                seq![msg(if fm2 { i } else { 0 }, i, sequence, value@)]
            } else {
                seq![msg(if fm2 { i } else { 0 }, i, sequence, payload)]
            },
            _ => seq![msg(if fm2 { i } else { 0 }, i, sequence, payload)],
        },
{
}

/// The requests of a step to all replicas are those that `step_messages`
/// lists after the extras.
proof fn lemma_step_upto_all(k: Kind, fm2: bool, sequence: u64, payload: Seq<char>, replicas: u64)
    ensures
        step_messages(k, fm2, sequence, payload, replicas) == (match k {
            Kind::Additional { to, n } => Seq::new(
                n as nat,
                |j: int| msg(if fm2 { to } else { 0 }, to, sequence, extra_payload(payload, j as nat)),
            ),
            _ => Seq::<OutgoingModel>::empty(),
        }) + step_messages_upto(k, fm2, sequence, payload, replicas, replicas),
{
    let all = broadcast_model(fm2, 0, sequence, replicas, payload);
    lemma_step_upto_prefix(k, fm2, sequence, payload, replicas, replicas);
    match k {
        Kind::Skip { to } => {
            if to < replicas {
                assert(all.remove(to as int) =~= step_messages_upto(k, fm2, sequence, payload, replicas, replicas));
            } else {
                assert(all =~= step_messages_upto(k, fm2, sequence, payload, replicas, replicas));
            }
        },
        Kind::Corrupt { value, to } => {
            let c = msg(if fm2 { to } else { 0 }, to, sequence, value@);
            if to < replicas {
                assert(all.update(to as int, c) =~= step_messages_upto(k, fm2, sequence, payload, replicas, replicas));
            } else {
                assert(all =~= step_messages_upto(k, fm2, sequence, payload, replicas, replicas));
            }
        },
        Kind::Additional { to, n } => {
            assert(all =~= step_messages_upto(k, fm2, sequence, payload, replicas, replicas));
        },
        Kind::Normal => {
            assert(all =~= step_messages_upto(k, fm2, sequence, payload, replicas, replicas));
        },
    }
}

/// The requests to the replicas below `i`, element by element.
proof fn lemma_step_upto_prefix(k: Kind, fm2: bool, sequence: u64, payload: Seq<char>, replicas: u64, i: u64)
    requires
        i <= replicas,
    ensures
        ({
            let up = step_messages_upto(k, fm2, sequence, payload, replicas, i);
            let all = broadcast_model(fm2, 0, sequence, replicas, payload);
            match k {
                Kind::Skip { to } => if to < i {
                    up == all.take(i as int).remove(to as int)
                } else {
                    up == all.take(i as int)
                },
                Kind::Corrupt { value, to } => if to < i {
                    up == all.take(i as int).update(to as int, msg(if fm2 { to } else { 0 }, to, sequence, value@))
                } else {
                    up == all.take(i as int)
                },
                _ => up == all.take(i as int),
            }
        }),
    decreases i,
{
    let all = broadcast_model(fm2, 0, sequence, replicas, payload);
    if i > 0 {
        let j = (i - 1) as u64;
        lemma_step_upto_prefix(k, fm2, sequence, payload, replicas, j);
        match k {
            Kind::Skip { to } => {
                if to < j {
                    assert(all.take(i as int).remove(to as int) =~= all.take(j as int).remove(to as int).push(all[j as int]));
                } else if to == j {
                    assert(all.take(i as int).remove(to as int) =~= all.take(j as int));
                } else {
                    assert(all.take(i as int) =~= all.take(j as int).push(all[j as int]));
                }
            },
            Kind::Corrupt { value, to } => {
                let c = msg(if fm2 { to } else { 0 }, to, sequence, value@);
                if to < j {
                    assert(all.take(i as int).update(to as int, c) =~= all.take(j as int).update(to as int, c).push(all[j as int]));
                } else if to == j {
                    assert(all.take(i as int).update(to as int, c) =~= all.take(j as int).push(c));
                } else {
                    assert(all.take(i as int) =~= all.take(j as int).push(all[j as int]));
                }
            },
            _ => {
                assert(all.take(i as int) =~= all.take(j as int).push(all[j as int]));
            },
        }
    } else {
        assert(all.take(0) =~= Seq::<OutgoingModel>::empty());
    }
}

/// How many replies a whole program expects under the second failure model.
pub fn count_replies_fm2(program: &[Kind]) -> (r: usize)
    requires
        program_replies(program@) <= usize::MAX,
    ensures
        r == program_replies(program@),
{
    let mut total: usize = 0;
    let mut i: usize = 0;
    while i < program.len()
        invariant
            i <= program@.len(),
            program_replies(program@) <= usize::MAX,
            total == program_replies(program@.take(i as int)),
        decreases program@.len() - i,
    {
        proof {
            lemma_program_replies_prefix(program@, i + 1);
            assert(program@.take(i + 1).drop_last() =~= program@.take(i as int));
        }
        let e = program[i].expected_fm2();
        total = total + e;
        i = i + 1;
    }
    assert(program@.take(i as int) =~= program@);
    total
}

/// The requests of one step, by failure model.
pub fn create_messages(fm2: bool, sequence: u64, payload: String, replicas: u64, kind: Kind) -> (r: Vec<Outgoing>)
    ensures
        outgoing_list(r@) == step_messages(kind, fm2, sequence, payload@, replicas),
{
    if fm2 {
        kind.create_messages_fm2(sequence, payload, replicas)
    } else {
        kind.create_messages(sequence, payload, replicas)
    }
}

/// The requests of every step of a program; step `i` has sequence number
/// `i` and the `i`-th payload.
pub fn create_program(fm2: bool, program: Vec<Kind>, payloads: Vec<String>, replicas: u64) -> (r: Vec<Vec<Outgoing>>)
    requires
        payloads@.len() == program@.len(),
        program@.len() <= u64::MAX,
    ensures
        r@.len() == program@.len(),
        forall|i: int| 0 <= i < r@.len() ==> outgoing_list((#[trigger] r@[i])@) == step_messages(
            program@[i],
            fm2,
            i as u64,
            payloads@[i]@,
            replicas,
        ),
{
    let mut out: Vec<Vec<Outgoing>> = Vec::new();
    let mut i: usize = 0;
    while i < program.len()
        invariant
            i <= program@.len(),
            payloads@.len() == program@.len(),
            program@.len() <= u64::MAX,
            out@.len() == i,
            forall|j: int| 0 <= j < i ==> outgoing_list((#[trigger] out@[j])@) == step_messages(
                program@[j],
                fm2,
                j as u64,
                payloads@[j]@,
                replicas,
            ),
        decreases program@.len() - i,
    {
        let kind = program[i].copy();
        let msgs = create_messages(fm2, i as u64, payloads[i].clone(), replicas, kind);
        out.push(msgs);
        i = i + 1;
    }
    out
}

impl Kind {
    pub fn copy(&self) -> (r: Kind)
        ensures
            r == *self,
    {
        match self {
            Kind::Normal => Kind::Normal,
            Kind::Skip { to } => Kind::Skip { to: *to },
            Kind::Corrupt { value, to } => Kind::Corrupt { value: value.clone(), to: *to },
            Kind::Additional { to, n } => Kind::Additional { to: *to, n: *n },
        }
    }
}

} // verus!
