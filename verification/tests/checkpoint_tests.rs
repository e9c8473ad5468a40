use wall_e1::checkpoint::{CheckpointStrategy, GradientCheckpointer, MemoryTracker};

#[test]
fn test_gradient_checkpointer() {
    // Create a gradient checkpointer with uniform strategy
    let mut checkpointer: GradientCheckpointer<Vec<f32>> = GradientCheckpointer::new(CheckpointStrategy::Uniform, 10);

    // Begin forward pass
    checkpointer.begin_forward();

    // Check which layers should be checkpointed
    for i in 0..10 {
        let should_store = checkpointer.should_checkpoint(i);
        println!("Layer {}: checkpoint={}", i, should_store);

        if should_store {
            // A mock 2x2 tensor of f32 values
            let tensor = vec![0.0f32; 4];
            checkpointer.store_checkpoint(i, tensor, 4 * 4);
        }
    }

    // End forward pass
    checkpointer.end_forward();

    // Check which layers were checkpointed
    for i in 0..10 {
        println!("Layer {}: has_checkpoint={}", i, checkpointer.has_checkpoint(i));
    }

    // Get memory stats
    let (current, peak) = checkpointer.memory_stats_bytes();
    println!("Memory usage: current={} bytes, peak={} bytes", current, peak);
}

#[test]
fn checkpoint_uniform_layers() {
    let mut c: GradientCheckpointer<u8> = GradientCheckpointer::new(CheckpointStrategy::Uniform, 10);
    assert!(!c.should_checkpoint(0));
    c.begin_forward();
    let chosen: Vec<usize> = (0..10).filter(|&i| c.should_checkpoint(i)).collect();
    assert_eq!(chosen, vec![0, 2, 4, 6, 8, 9]);
    for &i in &chosen {
        c.store_checkpoint(i, i as u8, 16);
    }
    c.store_checkpoint(3, 3, 16);
    assert!(!c.has_checkpoint(3));
    assert_eq!(c.memory_stats_bytes(), (96, 96));
    assert_eq!(c.checkpoint_totals(), (96, 6));
    c.free_checkpoint(4);
    assert!(!c.has_checkpoint(4));
    assert_eq!(c.memory_stats_bytes(), (80, 96));
    assert_eq!(c.checkpoint_totals(), (80, 5));
    assert_eq!(c.get_checkpoint(9), Some(&9));
    assert_eq!(c.recompute_activations(9, 0u8, |x: u8| x + 1), 9);
    assert_eq!(c.recompute_activations(4, 41u8, |x: u8| x + 1), 42);
    c.end_forward();
    assert!(!c.should_checkpoint(0));
    c.begin_forward();
    assert_eq!(c.checkpoint_totals(), (0, 0));
}

#[test]
fn checkpoint_strategies() {
    let mut b: GradientCheckpointer<()> = GradientCheckpointer::new(CheckpointStrategy::Boundary, 6);
    b.begin_forward();
    assert_eq!((0..6).filter(|&i| b.should_checkpoint(i)).collect::<Vec<_>>(), vec![0, 5]);
    let mut a: GradientCheckpointer<()> = GradientCheckpointer::new(CheckpointStrategy::Adaptive, 10);
    a.begin_forward();
    assert_eq!((0..10).filter(|&i| a.should_checkpoint(i)).collect::<Vec<_>>(), vec![0, 3, 6, 9]);
    a.store_checkpoint(0, (), 1048576001);
    assert_eq!((0..10).filter(|&i| a.should_checkpoint(i)).collect::<Vec<_>>(), vec![0, 2, 4, 6, 8, 9]);
    let mut n: GradientCheckpointer<()> = GradientCheckpointer::new(CheckpointStrategy::NoCheckpoint, 3);
    n.begin_forward();
    assert!((0..3).all(|i| !n.should_checkpoint(i)));
    let mut u: GradientCheckpointer<()> = GradientCheckpointer::new(CheckpointStrategy::Uniform, 12);
    u.begin_forward();
    assert_eq!((0..12).filter(|&i| u.should_checkpoint(i)).collect::<Vec<_>>(), vec![0, 3, 6, 9, 11]);
    u.set_checkpoint_interval(0);
    assert_eq!((0..12).filter(|&i| u.should_checkpoint(i)).count(), 12);
}

#[test]
fn memory_tracker_counts() {
    let mut t = MemoryTracker::new();
    t.allocate(100);
    t.allocate(50);
    t.deallocate(120);
    assert_eq!(t.current_usage(), 30);
    assert_eq!(t.peak_usage(), 150);
    t.deallocate(1000);
    assert_eq!(t.current_usage(), 0);
    t.snapshot("a");
    t.allocate(5);
    t.snapshot("b");
    assert_eq!(t.snapshot_value("a"), Some(0));
    assert_eq!(t.snapshot_value("b"), Some(5));
    t.snapshot("a");
    assert_eq!(t.snapshot_value("a"), Some(5));
    assert_eq!(t.snapshot_value("c"), None);
}
