//! The migration runner's logic: schema-change scripts are identified by a
//! content fingerprint, and a script is executed exactly once per store,
//! however it is named or reordered.

use vstd::prelude::*;

verus! {

/// One schema-change script: a name used only for discovery and display,
/// and the body that is fingerprinted and executed.
pub struct Migration {
    pub identifier: String,
    pub body: String,
}

/// The content fingerprint of a script body.  It stands for the hex form of
/// a fixed, collision-resistant 256-bit digest; the digest of a body depends
/// on that body alone.
pub uninterp spec fn fingerprint_of(body: Seq<char>) -> Seq<char>;

/// Relies on blake3::hash and blake3::Hash::to_hex: the digest, and hence
/// its hex rendering, is a deterministic function of the hashed bytes alone.
#[verifier::external_body]
pub(crate) fn fingerprint(body: &str) -> (r: String)
    ensures
        r@ == fingerprint_of(body@),
{
    let digest = blake3::hash(body.as_bytes());
    digest.to_hex().as_str().to_owned()
}

/// The bodies of a script sequence, in order.
pub open spec fn bodies_of(scripts: Seq<Migration>) -> Seq<Seq<char>> {
    Seq::new(scripts.len(), |i: int| scripts[i].body@)
}

/// One runner step: a body whose fingerprint is already logged is skipped;
/// otherwise the fingerprint is recorded and the body executed (appended to
/// the schema history), the two together.
pub open spec fn run_step(
    log: Seq<Seq<char>>,
    schema: Seq<Seq<char>>,
    body: Seq<char>,
) -> (Seq<Seq<char>>, Seq<Seq<char>>) {
    let fp = fingerprint_of(body);
    if log.contains(fp) {
        (log, schema)
    } else {
        (log.push(fp), schema.push(body))
    }
}

/// Runs a whole ordered script sequence, first to last.
pub open spec fn run_all(
    log: Seq<Seq<char>>,
    schema: Seq<Seq<char>>,
    bodies: Seq<Seq<char>>,
) -> (Seq<Seq<char>>, Seq<Seq<char>>)
    decreases bodies.len(),
{
    if bodies.len() == 0 {
        (log, schema)
    } else {
        let stepped = run_step(log, schema, bodies[0]);
        run_all(stepped.0, stepped.1, bodies.drop_first())
    }
}

/// A fingerprint once logged stays logged through any later run.
pub proof fn lemma_run_all_keeps_log(
    log: Seq<Seq<char>>,
    schema: Seq<Seq<char>>,
    bodies: Seq<Seq<char>>,
    fp: Seq<char>,
)
    requires
        log.contains(fp),
    ensures
        run_all(log, schema, bodies).0.contains(fp),
    decreases bodies.len(),
{
    if bodies.len() > 0 {
        let stepped = run_step(log, schema, bodies[0]);
        if !log.contains(fingerprint_of(bodies[0])) {
            assert(stepped.0.contains(fp)) by {
                let k = choose|k: int| 0 <= k < log.len() && log[k] == fp;
                assert(stepped.0[k] == fp);
            }
        }
        lemma_run_all_keeps_log(stepped.0, stepped.1, bodies.drop_first(), fp);
    }
}

/// After a run, the fingerprint of every script that was supplied is in the
/// log, whether the run executed it or found it there already.
pub proof fn lemma_run_all_records(
    log: Seq<Seq<char>>,
    schema: Seq<Seq<char>>,
    bodies: Seq<Seq<char>>,
)
    ensures
        forall|i: int|
            0 <= i < bodies.len() ==> run_all(log, schema, bodies).0.contains(
                #[trigger] fingerprint_of(bodies[i]),
            ),
    decreases bodies.len(),
{
    if bodies.len() > 0 {
        let stepped = run_step(log, schema, bodies[0]);
        assert(stepped.0.contains(fingerprint_of(bodies[0]))) by {
            if log.contains(fingerprint_of(bodies[0])) {
                let k = choose|k: int|
                    0 <= k < log.len() && log[k] == fingerprint_of(bodies[0]);
                assert(stepped.0[k] == fingerprint_of(bodies[0]));
            } else {
                assert(stepped.0[log.len() as int] == fingerprint_of(bodies[0]));
            }
        }
        lemma_run_all_keeps_log(stepped.0, stepped.1, bodies.drop_first(), fingerprint_of(bodies[0]));
        lemma_run_all_records(stepped.0, stepped.1, bodies.drop_first());
        assert forall|i: int| 0 <= i < bodies.len() implies run_all(log, schema, bodies).0.contains(
            #[trigger] fingerprint_of(bodies[i]),
        ) by {
            if i > 0 {
                assert(bodies.drop_first()[i - 1] == bodies[i]);
            }
        }
    }
}

/// A run whose scripts' fingerprints are all logged already changes nothing.
pub proof fn lemma_run_all_noop(log: Seq<Seq<char>>, schema: Seq<Seq<char>>, bodies: Seq<Seq<char>>)
    requires
        forall|i: int|
            0 <= i < bodies.len() ==> log.contains(#[trigger] fingerprint_of(bodies[i])),
    ensures
        run_all(log, schema, bodies) == (log, schema),
    decreases bodies.len(),
{
    if bodies.len() > 0 {
        assert(log.contains(fingerprint_of(bodies[0])));
        assert forall|i: int| 0 <= i < bodies.drop_first().len() implies log.contains(
            #[trigger] fingerprint_of(bodies.drop_first()[i]),
        ) by {
            assert(bodies.drop_first()[i] == bodies[i + 1]);
        }
        lemma_run_all_noop(log, schema, bodies.drop_first());
    }
}

/// Idempotence: running the same ordered script sequence a second time,
/// against the log and schema the first run left, changes neither.
pub proof fn lemma_migrations_idempotent(
    log: Seq<Seq<char>>,
    schema: Seq<Seq<char>>,
    bodies: Seq<Seq<char>>,
)
    ensures
        ({
            let once = run_all(log, schema, bodies);
            run_all(once.0, once.1, bodies) == once
        }),
{
    let once = run_all(log, schema, bodies);
    lemma_run_all_records(log, schema, bodies);
    lemma_run_all_noop(once.0, once.1, bodies);
}

/// Content identity, first half: renaming scripts without changing their
/// bodies changes nothing — the runner's outcome depends on the bodies alone.
pub proof fn lemma_rename_is_noop(
    log: Seq<Seq<char>>,
    schema: Seq<Seq<char>>,
    a: Seq<Migration>,
    b: Seq<Migration>,
)
    requires
        a.len() == b.len(),
        forall|i: int| 0 <= i < a.len() ==> (#[trigger] a[i].body)@ == b[i].body@,
    ensures
        run_all(log, schema, bodies_of(a)) == run_all(log, schema, bodies_of(b)),
{
    assert(bodies_of(a) =~= bodies_of(b));
}

/// Content identity, second half: a script whose body's fingerprint is not
/// yet logged is executed and appended, and the earlier entries remain.
pub proof fn lemma_new_body_runs(log: Seq<Seq<char>>, schema: Seq<Seq<char>>, body: Seq<char>)
    requires
        !log.contains(fingerprint_of(body)),
    ensures
        run_all(log, schema, seq![body]).0 == log.push(fingerprint_of(body)),
        run_all(log, schema, seq![body]).1 == schema.push(body),
{
    let bs = seq![body];
    assert(bs[0] == body);
    assert(bs.drop_first() =~= Seq::<Seq<char>>::empty());
    let stepped = run_step(log, schema, body);
    assert(run_all(log, schema, bs) == run_all(stepped.0, stepped.1, bs.drop_first()));
    assert(run_all(stepped.0, stepped.1, bs.drop_first()) == stepped);
}

/// A script whose body's fingerprint is already logged is skipped.
pub proof fn lemma_applied_body_skipped(
    log: Seq<Seq<char>>,
    schema: Seq<Seq<char>>,
    body: Seq<char>,
)
    requires
        log.contains(fingerprint_of(body)),
    ensures
        run_all(log, schema, seq![body]) == (log, schema),
{
    let bs = seq![body];
    assert(bs[0] == body);
    assert(bs.drop_first() =~= Seq::<Seq<char>>::empty());
    let stepped = run_step(log, schema, body);
    assert(stepped == (log, schema));
    assert(run_all(log, schema, bs) == run_all(stepped.0, stepped.1, bs.drop_first()));
    assert(run_all(stepped.0, stepped.1, bs.drop_first()) == stepped);
}

} // verus!
