use voxel_engine::coordinator::{
    mouse_click_bits, Buffer, Coordinator, DoubleBuffer, Pass, PhysicsTimer, PHYSICS_INTERVAL_US,
};
use voxel_engine::voxel::{Vec3Bits, VoxelGrid, HEADER_WORDS};

#[test]
fn timer_fires_and_restarts() {
    let mut t = PhysicsTimer::new(100);
    assert!(!t.triggered());
    t.tick(60);
    assert!(!t.triggered());
    t.tick(40);
    assert!(t.triggered());
    t.reset();
    assert_eq!(t.elapsed, 0);
    assert_eq!(t.trigger, 100);
    t.tick(u64::MAX);
    t.tick(5);
    assert_eq!(t.elapsed, u64::MAX);
}

#[test]
fn update_runs_only_when_the_timer_fires() {
    let mut c = Coordinator::new(100);
    assert_eq!(c.plan_tick(40, true), vec![Pass::Consume]);
    assert_eq!(c.plan_tick(40, true), vec![Pass::Consume]);
    assert_eq!(c.plan_tick(40, true), vec![Pass::Update, Pass::Swap, Pass::Consume]);
    assert_eq!(c.timer.elapsed, 120);
    // the timer restarts after firing
    assert_eq!(c.plan_tick(40, true), vec![Pass::Consume]);
    assert_eq!(c.timer.elapsed, 40);
    assert_eq!(c.plan_tick(100, true), vec![Pass::Update, Pass::Swap, Pass::Consume]);
}

#[test]
fn frame_not_acquired_runs_nothing() {
    let mut c = Coordinator::new(PHYSICS_INTERVAL_US);
    assert_eq!(c.plan_tick(PHYSICS_INTERVAL_US, false), Vec::<Pass>::new());
    assert_eq!(c.timer.elapsed, PHYSICS_INTERVAL_US);
    assert_eq!(c.plan_tick(1, true), vec![Pass::Consume]);
}

#[test]
fn passes_touch_buffers() {
    assert_eq!(Pass::Update.reads(), Buffer::Current);
    assert_eq!(Pass::Update.writes(), Some(Buffer::Scratch));
    assert_eq!(Pass::Swap.reads(), Buffer::Scratch);
    assert_eq!(Pass::Swap.writes(), Some(Buffer::Current));
    assert_eq!(Pass::Consume.reads(), Buffer::Current);
    assert_eq!(Pass::Consume.writes(), None);
}

#[test]
fn workgroup_counts() {
    assert_eq!(Pass::Update.workgroups(128, 1920, 1080), (16, 16, 16));
    assert_eq!(Pass::Swap.workgroups(128, 1920, 1080), (16, 16, 16));
    assert_eq!(Pass::Consume.workgroups(128, 1920, 1080), (240, 135, 1));
}

#[test]
fn mouse_buttons() {
    assert_eq!(mouse_click_bits(false, false, false), 0);
    assert_eq!(mouse_click_bits(true, false, false), 1);
    assert_eq!(mouse_click_bits(false, true, false), 2);
    assert_eq!(mouse_click_bits(false, false, true), 4);
    assert_eq!(mouse_click_bits(true, true, true), 7);
}

#[test]
fn update_reads_current_and_writes_scratch() {
    let words: Vec<u32> = (0..(HEADER_WORDS as u32 + 4)).collect();
    let mut b = DoubleBuffer::new(words.clone());
    let add_one = |cur: &Vec<u32>, i: usize| cur[i] + 1;
    b.dispatch(Pass::Update, &add_one);
    assert_eq!(b.current, words);
    assert_eq!(&b.scratch[..HEADER_WORDS], &words[..HEADER_WORDS]);
    assert_eq!(&b.scratch[HEADER_WORDS..], &[17, 18, 19, 20]);
    b.dispatch(Pass::Consume, &add_one);
    assert_eq!(b.current, words);
    b.dispatch(Pass::Swap, &add_one);
    assert_eq!(b.current, b.scratch);
    assert_eq!(b.current[HEADER_WORDS], 17);
}

#[test]
fn diagonal_survives_identity_tick() {
    let dim = 10u32;
    let mut g = VoxelGrid::new(dim, Vec3Bits { x: 0, y: 0, z: 0 });
    for i in 0..dim {
        g.get_mut(i, i, i).unwrap().set_voxel_type(3);
    }
    let mut buffers = DoubleBuffer::new(g.to_upload_words());
    let mut c = Coordinator::new(PHYSICS_INTERVAL_US);
    let plan = c.plan_tick(PHYSICS_INTERVAL_US, true);
    assert_eq!(plan, vec![Pass::Update, Pass::Swap, Pass::Consume]);
    let identity = |cur: &Vec<u32>, i: usize| cur[i];
    for pass in plan {
        buffers.dispatch(pass, &identity);
    }
    let cells = &buffers.current[HEADER_WORDS..];
    assert_eq!(cells.len(), 1000);
    let mut marked = 0;
    for x in 0..dim {
        for y in 0..dim {
            for z in 0..dim {
                let w = cells[(x * dim * dim + y * dim + z) as usize];
                if x == y && y == z {
                    assert_eq!(w, 3);
                    marked += 1;
                } else {
                    assert_eq!(w, 0);
                }
            }
        }
    }
    assert_eq!(marked, 10);
}
