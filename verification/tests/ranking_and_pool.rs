use rowjoin::InitOutcome;
use rowjoin::PoolFailure;
use rowjoin::PoolLifecycle;
use rowjoin::PoolPhase;
use rowjoin::PoolStep;
use rowjoin::Ranking;

#[test]
fn ranking_test() {
    let mut ranks = Ranking::new();
    ranks.push(1);
    ranks.push(2);
    ranks.push(2);
    ranks.push(3);
    ranks.push(4);
    ranks.push(4);

    let rankings = ranks.get_ranks(|element| -*element);
    let mut iter = rankings.into_iter();

    assert_eq!(iter.next(), Some((0, 4)));
    assert_eq!(iter.next(), Some((0, 4)));
    assert_eq!(iter.next(), Some((1, 3)));
    assert_eq!(iter.next(), Some((2, 2)));
    assert_eq!(iter.next(), Some((2, 2)));
    assert_eq!(iter.next(), Some((3, 1)));
    assert_eq!(iter.next(), None);
}

#[test]
fn ranking_ascending_with_gap_free_ranks() {
    let ranking = Ranking::from(vec![30i64, 10, 30, 20, 10]);
    let ranked = ranking.get_ranks(|element| *element);
    assert_eq!(ranked, vec![(0, 10), (0, 10), (1, 20), (2, 30), (2, 30)]);
}

#[test]
fn ranking_empty_and_into_values() {
    let ranking: Ranking<i64> = Ranking::default();
    assert_eq!(ranking.get_ranks(|element| *element), vec![]);
    let mut other = Ranking::new();
    other.push(5i64);
    assert_eq!(other.into_values(), vec![5]);
}

#[test]
fn ranking_is_stable_for_equal_keys() {
    // Values with equal keys keep their arrival order.
    let ranking = Ranking::from(vec![(1i64, 'a'), (1, 'b'), (0, 'c')]);
    let ranked = ranking.get_ranks(|element| element.0);
    assert_eq!(ranked, vec![(0, (0, 'c')), (1, (1, 'a')), (1, (1, 'b'))]);
}

#[test]
fn pool_reset_then_acquire_runs_migrations_exactly_once() {
    let mut pool = PoolLifecycle::new(true);
    assert_eq!(pool.on_acquire(), PoolStep::Initialize { run_migrations: true });
    assert_eq!(pool.on_init_outcome(InitOutcome::Connected), Ok(()));
    assert_eq!(pool.on_acquire(), PoolStep::HandOut);
    assert_eq!(pool.on_acquire(), PoolStep::HandOut);

    // Whatever was handed out before, a reset forces one fresh
    // initialization with migrations, after which acquires only hand out.
    pool.reset();
    assert_eq!(pool.on_acquire(), PoolStep::Initialize { run_migrations: true });
    assert_eq!(pool.on_init_outcome(InitOutcome::Connected), Ok(()));
    assert_eq!(pool.on_acquire(), PoolStep::HandOut);
}

#[test]
fn pool_without_migrations_initializes_without_them() {
    let pool = PoolLifecycle::new(false);
    assert_eq!(pool.on_acquire(), PoolStep::Initialize { run_migrations: false });
}

#[test]
fn pool_failures_name_their_stage() {
    let mut pool = PoolLifecycle::new(true);
    assert_eq!(
        pool.on_init_outcome(InitOutcome::ConnectionFailed),
        Err(PoolFailure::PoolInitConnection)
    );
    // A failed initialization leaves the pool uninitialized: the next
    // acquire retries from scratch.
    assert_eq!(pool.on_acquire(), PoolStep::Initialize { run_migrations: true });
    assert_eq!(
        pool.on_init_outcome(InitOutcome::MigrationFailed),
        Err(PoolFailure::PoolInitMigration)
    );
    assert_eq!(pool.on_init_outcome(InitOutcome::Connected), Ok(()));
    assert_eq!(pool.on_handout_outcome(true), Ok(()));
    assert_eq!(pool.on_handout_outcome(false), Err(PoolFailure::Connection));
    let _ = PoolPhase::Ready;
}
