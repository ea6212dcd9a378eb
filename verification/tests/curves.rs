use std::collections::VecDeque;

use netmon::axis::{axis_labels, current_label};
use netmon::double::Double;
use netmon::history::{cap, remember, sparkline_max, sparkline_max_f, MAX_HISTORY};
use netmon::layout::Area;
use netmon::wave::{draw_waveform, draw_waveform_f};

fn num(x: f64) -> Double {
    Double::from_bits(x.to_bits()).unwrap()
}

fn val(d: Double) -> f64 {
    f64::from_bits(d.to_bits())
}

fn random(n: usize, seed: u64) -> Vec<u64> {
    let mut s = seed;
    let mut r = Vec::new();
    for _ in 0..n {
        s = s.wrapping_mul(6364136223846793005).wrapping_add(1442695040888963407);
        r.push(s >> 40);
    }
    r
}

/// The curve drawn with floating point numbers and lines between the points.
fn expected(data: &Vec<f64>, width: usize, height: usize) -> Vec<String> {
    let (xres, yres) = (width * 2, height * 4);
    let n = data.len();
    let smoothed: Vec<f64> = (0..n)
        .map(|i| {
            let a = data[if i > 0 { i - 1 } else { i }];
            let c = data[if i + 1 < n { i + 1 } else { i }];
            (a + data[i] + c) / 3.0
        })
        .collect();
    let span = ((n as f64).min(MAX_HISTORY as f64) - 1.0).max(1.0);
    let xr = (xres as f64 - 1.0).max(1.0);
    let mut points: Vec<(i32, i32)> = Vec::new();
    for dx in 0..xres {
        let at = dx as f64 * span / xr;
        let mut best: Option<(f64, f64)> = None;
        for i in [at.floor() as usize, at.ceil() as usize] {
            if i < n {
                let d = (i as f64 * (xres - 1) as f64 / span - dx as f64).abs();
                if best.map_or(true, |(bd, _)| d < bd) {
                    best = Some((d, smoothed[i]));
                }
            }
        }
        if let Some((_, v)) = best {
            points.push((dx as i32, ((1.0 - v) * (yres - 1) as f64).round() as i32));
        }
    }
    let mut dots = vec![false; xres * yres];
    let mut set = |x: i32, y: i32| {
        if x >= 0 && x < xres as i32 && y >= 0 && y < yres as i32 {
            dots[y as usize * xres + x as usize] = true;
        }
    };
    if points.len() == 1 {
        set(points[0].0, points[0].1);
    }
    for w in points.windows(2) {
        let ((x0, y0), (x1, y1)) = (w[0], w[1]);
        let steps = (x1 - x0).abs().max(1);
        for s in 0..=steps {
            let t = s as f64 / steps as f64;
            set(
                (x0 as f64 + (x1 - x0) as f64 * t).round() as i32,
                (y0 as f64 + (y1 - y0) as f64 * t).round() as i32,
            );
        }
    }
    let bit = [[0, 1, 2, 6], [3, 4, 5, 7]];
    let mut rows = Vec::new();
    for cy in 0..height {
        let mut row = String::new();
        for cx in 0..width {
            let mut bits = 0u32;
            for dy in 0..4 {
                for dx in 0..2 {
                    if dots[(cy * 4 + dy) * xres + cx * 2 + dx] {
                        bits |= 1 << bit[dx][dy];
                    }
                }
            }
            row.push(char::from_u32(0x2800 + bits).unwrap());
        }
        rows.push(row);
    }
    rows
}

fn lines(grid: &Vec<Vec<char>>) -> Vec<String> {
    grid.iter().map(|r| r.iter().collect()).collect()
}

#[test]
fn curves_match_floating_point_drawing() {
    for (n, w, h) in [
        (1usize, 1u16, 1u16),
        (1, 5, 2),
        (2, 1, 1),
        (2, 40, 3),
        (3, 7, 3),
        (10, 3, 2),
        (100, 37, 3),
        (601, 95, 3),
        (5000, 60, 4),
    ] {
        for seed in 1..4 {
            let values = random(n, seed);
            let h1: VecDeque<u64> = values.iter().copied().collect();
            let max = sparkline_max(&h1);
            let data: Vec<f64> =
                values.iter().map(|&v| (v as f64 / max as f64).clamp(0.0, 1.0)).collect();
            let got = draw_waveform(w, h, &h1, max);
            assert_eq!(lines(&got), expected(&data, w as usize, h as usize));

            let floats: Vec<f64> = values.iter().map(|&v| v as f64 / 160000.0).collect();
            let h2: VecDeque<Double> = floats.iter().map(|&v| num(v)).collect();
            let data: Vec<f64> = floats.iter().map(|&v| (v / 100.0).clamp(0.0, 1.0)).collect();
            let got = draw_waveform_f(w, h, &h2, num(100.0));
            assert_eq!(lines(&got), expected(&data, w as usize, h as usize));
        }
    }
}

#[test]
fn every_column_has_one_dot() {
    let values: VecDeque<u64> = random(1000, 9).into_iter().collect();
    let grid = draw_waveform(30, 3, &values, sparkline_max(&values));
    assert_eq!(grid.len(), 3);
    for cx in 0..30 {
        let mut left = 0;
        let mut right = 0;
        for row in &grid {
            let bits = row[cx] as u32 - 0x2800;
            left += (bits & 0b0100_0111).count_ones();
            right += (bits & 0b1011_1000).count_ones();
        }
        assert_eq!((left, right), (1, 1));
    }
}

#[test]
fn a_flat_history_lies_at_the_bottom_and_a_full_one_at_the_top() {
    let zero: VecDeque<u64> = vec![0; 10].into_iter().collect();
    assert_eq!(lines(&draw_waveform(3, 2, &zero, 5)), vec!["⠀⠀⠀", "⣀⣀⣀"]);
    let full: VecDeque<u64> = vec![5; 10].into_iter().collect();
    assert_eq!(lines(&draw_waveform(3, 2, &full, 5)), vec!["⠉⠉⠉", "⠀⠀⠀"]);
    let over: VecDeque<Double> = vec![num(250.0); 4].into_iter().collect();
    assert_eq!(lines(&draw_waveform_f(2, 1, &over, num(100.0))), vec!["⠉⠉"]);
}

#[test]
fn nothing_is_drawn_without_area_history_or_scale() {
    let some: VecDeque<u64> = vec![1, 2].into_iter().collect();
    assert!(draw_waveform(0, 3, &some, 5).is_empty());
    assert!(draw_waveform(3, 0, &some, 5).is_empty());
    assert!(draw_waveform(3, 3, &some, 0).is_empty());
    assert!(draw_waveform(3, 3, &VecDeque::new(), 5).is_empty());
    let f: VecDeque<Double> = vec![num(1.0)].into_iter().collect();
    assert!(draw_waveform_f(3, 3, &f, num(0.0)).is_empty());
    assert!(draw_waveform_f(3, 3, &VecDeque::new(), num(1.0)).is_empty());
    assert!(draw_waveform_f(0, 3, &f, num(1.0)).is_empty());
}

#[test]
fn the_scale_lies_a_tenth_above_the_largest_value() {
    let h: VecDeque<u64> = vec![3, 1000, 7].into_iter().collect();
    assert_eq!(sparkline_max(&h), 1101);
    assert_eq!(sparkline_max(&VecDeque::new()), 2);
    for v in [1u64, 9, 10, 123456789, 9007199254740993, u64::MAX / 2, u64::MAX - 1] {
        let h: VecDeque<u64> = vec![v].into_iter().collect();
        assert_eq!(sparkline_max(&h), ((v as f64 * 1.1) as u64).wrapping_add(1));
        if v < 1 << 63 {
            assert!(sparkline_max(&h) > v);
        }
    }
    let f: VecDeque<Double> = vec![num(0.5), num(2000.0)].into_iter().collect();
    assert_eq!(val(sparkline_max_f(&f)), 2000.0 * 1.1 + 1.0);
    assert_eq!(val(sparkline_max_f(&VecDeque::new())), 2.1);
}

#[test]
fn only_the_newest_day_counts_for_the_scale() {
    let mut h: VecDeque<u64> = vec![1_000_000].into_iter().collect();
    for _ in 0..MAX_HISTORY {
        h.push_back(1);
    }
    assert_eq!(sparkline_max(&h), 2);
}

#[test]
fn histories_drop_the_oldest() {
    let mut h: VecDeque<u64> = (0..MAX_HISTORY as u64).collect();
    remember(&mut h, 7);
    assert_eq!(h.len(), MAX_HISTORY);
    assert_eq!((h[0], h[MAX_HISTORY - 1]), (1, 7));
    cap(&mut h);
    assert_eq!(h.len(), MAX_HISTORY);
    let mut small: VecDeque<u64> = VecDeque::new();
    remember(&mut small, 1);
    remember(&mut small, 2);
    assert_eq!(small, vec![1, 2]);
}

/// The axis drawn with floating point numbers.
fn expected_labels(chart: Area, inner: Area, n: usize, now: u64) -> Vec<(u16, String)> {
    let window = ((n as f64 - 1.0) * 500.0 / 1000.0).max(1.0);
    let xres = ((chart.width as usize * 2) as f64 - 1.0).max(0.0);
    let mut last = (i32::MIN / 2, String::new());
    let most = (chart.width as i32 / 8).max(2);
    let step = ((288 + most - 1) / most).max(1);
    let mut r = Vec::new();
    for k in 0..288 {
        let f = k as f64 / 288.0;
        let gx = chart.x + ((f * xres).round() as usize / 2) as u16;
        if k % step == 0 {
            let t = now.wrapping_sub(((1.0 - f) * window) as u64).wrapping_add(28800);
            let label = format!("{:02}:{:02}", (t / 3600) % 24, (t / 60) % 60);
            let lx = gx.saturating_sub(2) as i32;
            if lx >= inner.x as i32
                && lx + 5 <= inner.x as i32 + inner.width as i32
                && lx - last.0 >= 7
                && label != last.1
            {
                r.push((lx as u16, label.clone()));
                last = (lx, label);
            }
        }
    }
    r
}

#[test]
fn axis_labels_match_floating_point_placement() {
    for width in [0u16, 1, 8, 15, 16, 40, 95, 177, 400] {
        let inner = Area { x: 2, y: 5, width: width + 21, height: 9 };
        let chart = Area { x: 23, y: 5, width, height: 3 };
        for n in [2usize, 3, 600, 7201, 86400, MAX_HISTORY] {
            for now in [1_700_000_000u64, 1_700_003_599, 100] {
                let got: Vec<(u16, String)> =
                    axis_labels(chart, inner, n, now).into_iter().map(|l| (l.x, l.text)).collect();
                assert_eq!(got, expected_labels(chart, inner, n, now));
                for w in got.windows(2) {
                    assert!(w[0].0 + 7 <= w[1].0);
                    assert_ne!(w[0].1, w[1].1);
                }
            }
        }
    }
}

#[test]
fn one_sample_has_no_axis() {
    let a = Area { x: 0, y: 0, width: 100, height: 9 };
    assert!(axis_labels(a, a, 1, 1_700_000_000).is_empty());
    assert!(axis_labels(a, a, 0, 1_700_000_000).is_empty());
    // A window of a few seconds has one label at most.
    assert_eq!(axis_labels(a, a, 5, 1_700_000_020).len(), 1);
}

#[test]
fn the_current_time_stands_at_the_right_end() {
    let a = Area { x: 2, y: 0, width: 100, height: 9 };
    let l = current_label(a, 1_700_000_000).unwrap();
    assert_eq!(l.text, "now 06:13:20");
    assert_eq!(l.x, 2 + 100 - 13);
    let a = Area { x: 2, y: 0, width: 12, height: 9 };
    assert_eq!(current_label(a, 0).unwrap().x, 2);
    let a = Area { x: 2, y: 0, width: 11, height: 9 };
    assert!(current_label(a, 0).is_none());
}

#[test]
fn the_curve_fills_the_width() {
    // A single peak at the start, or at the end, shows in the first or last column.
    for n in [2usize, 3, 50, 4000] {
        let mut start = vec![0u64; n];
        start[0] = 3000;
        let h: VecDeque<u64> = start.iter().copied().collect();
        let grid = draw_waveform(20, 3, &h, 1000);
        assert_ne!(grid[2][0] as u32 & 0b0100_0000, 0b0100_0000, "{}", n);
        let mut end = vec![0u64; n];
        end[n - 1] = 3000;
        let h: VecDeque<u64> = end.iter().copied().collect();
        let grid = draw_waveform(20, 3, &h, 1000);
        assert_ne!(grid[2][19] as u32 & 0b1000_0000, 0b1000_0000, "{}", n);
    }
}
