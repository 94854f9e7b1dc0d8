use windows_rs_telemetry::ui::{
    after_frame, answer, effective_dpi, initial_window_size, reaction, Drawn, FrameStep, Reaction,
    Rectangle, MAX_DPI, WM_APP_SAMPLE, WM_CLOSE, WM_DPICHANGED, WM_ERASEBKGND, WM_PAINT,
};

fn area(width: i32, height: i32) -> Option<Rectangle> {
    Some(Rectangle {
        left: 0,
        top: 0,
        right: width,
        bottom: height,
    })
}

#[test]
fn the_initial_window_follows_dpi_and_work_area() {
    assert_eq!(initial_window_size(96, None), (1400, 1480));
    assert_eq!(initial_window_size(0, None), (1400, 1480));
    assert_eq!(initial_window_size(192, None), (2800, 2960));
    assert_eq!(initial_window_size(96, area(1920, 1040)), (1400, 1008));
    assert_eq!(initial_window_size(96, area(3840, 2080)), (1400, 1480));
    assert_eq!(initial_window_size(96, area(20, 10)), (1, 1));
    assert_eq!(initial_window_size(MAX_DPI, None).1, 22369614);
    assert_eq!(effective_dpi(72), 96);
    assert_eq!(effective_dpi(144), 144);
}

#[test]
fn rectangles_have_sizes() {
    let rect = Rectangle {
        left: -10,
        top: 5,
        right: 30,
        bottom: 25,
    };
    assert!(rect.has_size());
    assert_eq!(rect.placement(), (-10, 5, 40, 20));
    assert_eq!(rect.drawing_size(), Some((40, 20)));
    let empty = Rectangle {
        left: 0,
        top: 0,
        right: 0,
        bottom: 9,
    };
    assert_eq!(empty.drawing_size(), None);
    let huge = Rectangle {
        left: i32::MIN,
        top: 0,
        right: i32::MAX,
        bottom: 0,
    };
    assert!(!huge.has_size());
}

#[test]
fn messages_have_reactions_and_answers() {
    assert_eq!(reaction(WM_APP_SAMPLE), Reaction::TakeSample);
    assert_eq!(reaction(WM_PAINT), Reaction::Paint);
    assert_eq!(reaction(WM_DPICHANGED), Reaction::Rescale);
    assert_eq!(reaction(WM_ERASEBKGND), Reaction::SkipErase);
    assert_eq!(reaction(WM_CLOSE), Reaction::Quit);
    assert_eq!(reaction(1), Reaction::Default);
    assert_eq!(answer(Reaction::Paint), Some(0));
    assert_eq!(answer(Reaction::SkipErase), Some(1));
    assert_eq!(answer(Reaction::Default), None);
}

#[test]
fn a_lost_device_is_made_anew_once() {
    assert_eq!(after_frame(0, Drawn::Presented), FrameStep::Done);
    assert_eq!(after_frame(0, Drawn::DeviceLost), FrameStep::Retry);
    assert_eq!(after_frame(1, Drawn::DeviceLost), FrameStep::GiveUp);
    assert_eq!(after_frame(1, Drawn::Presented), FrameStep::Done);
    assert_eq!(after_frame(0, Drawn::Failed), FrameStep::Fail);
}
