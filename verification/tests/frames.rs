use mandy::frames::{frame_label, padding};

#[test]
fn padding_is_the_width_of_the_last_number() {
    assert_eq!(padding(1), 1);
    assert_eq!(padding(5), 1);
    assert_eq!(padding(10), 1);
    assert_eq!(padding(11), 2);
    assert_eq!(padding(100), 2);
    assert_eq!(padding(101), 3);
    assert_eq!(padding(1000), 3);
    assert_eq!(padding(1001), 4);
    assert_eq!(padding(10001), 5);
    assert_eq!(padding(u16::MAX), 5);
}

#[test]
fn padding_is_at_least_one() {
    assert_eq!(padding(0), 1);
    assert_eq!(padding(1), 1);
}

#[test]
fn frame_label_puts_zeros_in_front() {
    assert_eq!(frame_label(7, 3), "007");
    assert_eq!(frame_label(42, 3), "042");
    assert_eq!(frame_label(0, 2), "00");
    assert_eq!(frame_label(99, 2), "99");
    assert_eq!(frame_label(65535, 8), "00065535");
}

#[test]
fn frame_label_never_cuts_the_number() {
    assert_eq!(frame_label(0, 0), "0");
    assert_eq!(frame_label(0, 1), "0");
    assert_eq!(frame_label(42, 1), "42");
    assert_eq!(frame_label(1000, 0), "1000");
    assert_eq!(frame_label(65535, 5), "65535");
}

#[test]
fn five_frames_are_numbered_with_one_digit() {
    let width = padding(5);
    assert_eq!(width, 1);
    let labels: Vec<String> = (0..5).map(|n| frame_label(n, width)).collect();
    assert_eq!(labels, vec!["0", "1", "2", "3", "4"]);
    let mut scale: f64 = 2.0;
    let mut scales = Vec::new();
    for _ in 0..5 {
        scales.push(scale);
        scale *= 0.5;
    }
    assert_eq!(scales, vec![2.0, 1.0, 0.5, 0.25, 0.125]);
}

#[test]
fn all_labels_of_a_sequence_are_equally_wide() {
    for frames in [1u16, 9, 10, 11, 100, 101, 250] {
        let width = padding(frames);
        for n in 0..frames {
            let label = frame_label(n, width);
            assert_eq!(label.len(), width);
            assert_eq!(label.parse::<u16>().unwrap(), n);
        }
    }
}
