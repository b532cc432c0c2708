use bitcoinmw::evh::state::{event_work, next_step, EventType, LoopStep};
use bitcoinmw::evh::config::{build_config, ConfigOption, EVH_DEFAULT_HOUSEKEEPING_FREQUENCY_MILLIS, EVH_DEFAULT_READ_SLAB_COUNT, EVH_DEFAULT_READ_SLAB_SIZE, EVH_DEFAULT_STATS_UPDATE_MILLIS, EVH_DEFAULT_THREADS, EVH_DEFAULT_TIMEOUT};
use bitcoinmw::base::error::Error;
use bitcoinmw::evh::slabs::{ReadSlabs, SlabChain, SLAB_END};

fn read_all(pool: &ReadSlabs, c: &SlabChain) -> Vec<u8> {
    let mut out = Vec::new();
    let mut cur = c.first_slab();
    loop {
        let mut buf = [0u8; 64];
        let n = pool.clone_next_chunk(c, &mut cur, &mut buf);
        if n == 0 && cur >= SLAB_END {
            break;
        }
        out.extend_from_slice(&buf[0..n]);
    }
    out
}

#[test]
fn slab_chain_reads_span_slabs() -> Result<(), Error> {
    let mut pool = ReadSlabs::new(25, 3)?;
    let mut c = SlabChain::new();
    let data: Vec<u8> = (0u8..30).collect();

    let (id0, start) = pool.read_slot(&mut c)?;
    assert_eq!(start, 0);
    pool.record_read(&mut c, &data[0..21]);
    let (id1, start) = pool.read_slot(&mut c)?;
    assert_ne!(id0, id1);
    assert_eq!(start, 0);
    pool.record_read(&mut c, &data[21..30]);
    assert_eq!(c.first_slab(), id0);
    assert_eq!(c.last_slab(), id1);
    assert_eq!(c.slab_offset(), 9);

    assert_eq!(read_all(&pool, &c), data);

    pool.clear_through(&mut c, id0);
    assert_eq!(c.first_slab(), id1);
    assert_eq!(read_all(&pool, &c), data[21..30].to_vec());

    pool.clear_all(&mut c);
    assert!(c.first_slab() >= SLAB_END);
    assert!(c.last_slab() >= SLAB_END);
    assert_eq!(read_all(&pool, &c), Vec::<u8>::new());
    Ok(())
}

#[test]
fn slab_pool_runs_out() -> Result<(), Error> {
    let mut pool = ReadSlabs::new(25, 2)?;
    let mut c = SlabChain::new();
    pool.read_slot(&mut c)?;
    pool.record_read(&mut c, &[1u8; 21]);
    pool.read_slot(&mut c)?;
    pool.record_read(&mut c, &[2u8; 21]);
    assert_eq!(pool.read_slot(&mut c), Err(Error::CapacityExceeded));
    let first = c.first_slab();
    pool.clear_through(&mut c, first);
    let (_, start) = pool.read_slot(&mut c)?;
    assert_eq!(start, 0);
    Ok(())
}

#[test]
fn slab_chunk_copy_truncates_to_buffer() -> Result<(), Error> {
    let mut pool = ReadSlabs::new(30, 1)?;
    let mut c = SlabChain::new();
    pool.read_slot(&mut c)?;
    pool.record_read(&mut c, b"hello world");
    let mut cur = c.first_slab();
    let mut buf = [0u8; 5];
    assert_eq!(pool.clone_next_chunk(&c, &mut cur, &mut buf), 5);
    assert_eq!(&buf, b"hello");
    assert_eq!(cur, SLAB_END);
    let mut cur = usize::MAX;
    assert_eq!(pool.clone_next_chunk(&c, &mut cur, &mut buf), 0);
    Ok(())
}

#[test]
fn slab_pool_config_errors() {
    assert!(matches!(ReadSlabs::new(24, 10), Err(Error::IllegalArgument)));
    assert!(matches!(ReadSlabs::new(25, 0), Err(Error::IllegalArgument)));
}

use bitcoinmw::evh::state::{
    EvhStats, GlobalStats, WakeupState, WriteStart, WriteState, WRITE_STATE_FLAG_CLOSE,
    WRITE_STATE_FLAG_PENDING, WRITE_STATE_FLAG_TRIGGER_ON_READ,
};

#[test]
fn stats_are_summed_and_reported_every_n_threads() {
    let mut global = GlobalStats { stats: EvhStats::new(), update_counter: 0 };
    let mut t = EvhStats::new();
    t.reads = 3;
    t.accepts = 1;
    assert!(!global.update_stats(&mut t, 2));
    assert_eq!(t.reads, 0);
    t.reads = 4;
    assert!(global.update_stats(&mut t, 2));
    assert_eq!(global.stats.reads, 7);
    assert_eq!(global.stats.accepts, 1);
    assert_eq!(global.update_counter, 0);
}

#[test]
fn wakeup_only_when_blocking_and_not_yet_asked() {
    let mut w = WakeupState::new();
    assert!(!w.wakeup());
    w.post_block();
    assert!(!w.pre_block());
    assert!(w.wakeup());
    assert!(!w.wakeup());
    w.post_block();
    assert!(!w.requested && !w.needed);
}

#[test]
fn write_state_queues_and_drains() -> Result<(), Error> {
    let mut ws = WriteState::new();
    assert_eq!(ws.write_start(), WriteStart::Direct);
    ws.finish_write(b"hello", 2);
    assert!(ws.is_set(WRITE_STATE_FLAG_PENDING));
    assert_eq!(ws.pending(), b"llo");
    assert_eq!(ws.write_start(), WriteStart::Queue);
    ws.queue_data(b"!!");
    assert_eq!(ws.pending(), b"llo!!");
    assert!(ws.consume(3));
    assert_eq!(ws.pending(), b"!!");
    assert!(!ws.consume(2));
    assert!(!ws.is_set(WRITE_STATE_FLAG_PENDING));
    ws.trigger_on_read()?;
    assert!(ws.is_set(WRITE_STATE_FLAG_TRIGGER_ON_READ));
    ws.close()?;
    assert!(ws.is_set(WRITE_STATE_FLAG_CLOSE));
    assert_eq!(ws.write_start(), WriteStart::Refused);
    assert_eq!(ws.close(), Err(Error::IllegalState));
    assert_eq!(ws.trigger_on_read(), Err(Error::IllegalState));
    Ok(())
}

#[test]
fn build_config_defaults_and_overrides() -> Result<(), Error> {
    use_config_defaults()?;
    let c = build_config(&[
        ConfigOption::EvhThreads(4),
        ConfigOption::EvhReadSlabSize(100),
        ConfigOption::Debug(true),
        ConfigOption::EvhTimeout(7),
    ])?;
    assert_eq!(c.threads, 4);
    assert_eq!(c.read_slab_size, 100);
    assert!(c.debug);
    assert_eq!(c.timeout, 7);
    assert_eq!(c.read_slab_count, EVH_DEFAULT_READ_SLAB_COUNT);
    Ok(())
}

fn use_config_defaults() -> Result<(), Error> {
    let c = build_config(&[])?;
    assert_eq!(c.threads, EVH_DEFAULT_THREADS);
    assert_eq!(c.read_slab_count, EVH_DEFAULT_READ_SLAB_COUNT);
    assert_eq!(c.read_slab_size, EVH_DEFAULT_READ_SLAB_SIZE);
    assert_eq!(c.timeout, EVH_DEFAULT_TIMEOUT);
    assert_eq!(c.housekeeping_frequency_millis, EVH_DEFAULT_HOUSEKEEPING_FREQUENCY_MILLIS);
    assert_eq!(c.stats_update_frequency_millis, EVH_DEFAULT_STATS_UPDATE_MILLIS);
    assert!(!c.debug);
    Ok(())
}

#[test]
fn build_config_rejects_bad_values() {
    assert!(matches!(build_config(&[ConfigOption::EvhReadSlabCount(0)]), Err(Error::Configuration)));
    assert!(matches!(build_config(&[ConfigOption::EvhReadSlabSize(24)]), Err(Error::Configuration)));
    assert!(build_config(&[ConfigOption::EvhReadSlabSize(25)]).is_ok());
    assert!(matches!(build_config(&[ConfigOption::EvhTimeout(0)]), Err(Error::Configuration)));
    assert!(matches!(
        build_config(&[ConfigOption::EvhHouseKeeperFrequencyMillis(0)]),
        Err(Error::Configuration)
    ));
    assert!(matches!(
        build_config(&[ConfigOption::EvhThreads(1), ConfigOption::EvhThreads(2)]),
        Err(Error::Configuration)
    ));
}

#[test]
fn event_loop_steps_take_triggered_reads_first() {
    assert_eq!(next_step(0, 2, 0, 3), LoopStep::TriggeredRead(0));
    assert_eq!(next_step(1, 2, 0, 3), LoopStep::TriggeredRead(1));
    assert_eq!(next_step(2, 2, 0, 3), LoopStep::ReadyEvent(0));
    assert_eq!(next_step(2, 2, 2, 3), LoopStep::ReadyEvent(2));
    assert_eq!(next_step(2, 2, 3, 3), LoopStep::Done);
    assert_eq!(next_step(0, 0, 0, 0), LoopStep::Done);
    assert_eq!(event_work(EventType::Read), (true, false));
    assert_eq!(event_work(EventType::Write), (false, true));
    assert_eq!(event_work(EventType::ReadWrite), (true, true));
}
