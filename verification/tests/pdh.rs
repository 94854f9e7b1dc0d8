use windows_rs_telemetry::clock::{Moment, SECOND};
use windows_rs_telemetry::double::Double;
use windows_rs_telemetry::pdh::{
    after_fill, after_size, busiest, formatted_value, frequency, name_from_buffer, parse_instance,
    read_items, status, Adapter, AdapterDescription, AdapterQuery, AdapterScan, AdapterStep,
    CpuFrequencySampler, DiskRates, EngineReading, FillStep, FrequencyPoll, RawItem, Readiness,
    Sampler, SizeStep, DXGI_ERROR_NOT_FOUND, MAX_ADAPTERS, RETRY_INTERVAL,
};

fn d(x: f64) -> Double {
    Double { bits: x.to_bits() }
}

fn at(nanos: u64) -> Moment {
    Moment { nanos }
}

const MS: u64 = 1_000_000;

#[test]
fn instance_parser_requires_pid_and_engine_type() {
    assert_eq!(
        parse_instance("pid_31520_luid_0x00000000_0x00010AD1_phys_0_eng_0_engtype_3D"),
        Some((31520, "3D".to_string()))
    );
    assert_eq!(
        parse_instance("luid_0x00000000_0x00010AD1_engtype_3D"),
        None
    );
    assert_eq!(parse_instance("pid_3_engtype_"), None);
}

#[test]
fn instance_name_stays_within_returned_buffer() {
    let buffer = [0x41_u64, 0];
    let name = 0x1000;
    assert_eq!(name_from_buffer(&buffer, 0x1000, 4, name).unwrap(), "A");
    assert!(name_from_buffer(&buffer, 0x1000, 4, name + 1).is_err());
    assert!(name_from_buffer(&buffer, 0x1000, 4, name + 16).is_err());
    assert!(name_from_buffer(&buffer, 0x1000, 2, name).is_err());
}

#[test]
fn instance_names_cross_word_boundaries() {
    let buffer = [0x0043_0042_0041_0040, 0x0000_0046_0045_0044];
    assert_eq!(name_from_buffer(&buffer, 64, 16, 66).unwrap(), "ABCDEF");
    assert_eq!(name_from_buffer(&buffer, 64, 16, 78).unwrap(), "");
    assert_eq!(
        name_from_buffer(&buffer, 64, 16, 62).unwrap_err(),
        "PDH 实例名指针越界或未对齐"
    );
    assert_eq!(
        name_from_buffer(&buffer, 64, 14, 66).unwrap_err(),
        "PDH 实例名没有终止符"
    );
    assert_eq!(
        name_from_buffer(&buffer, usize::MAX - 7, 16, 66).unwrap_err(),
        "PDH 缓冲区地址溢出"
    );
}

#[test]
fn codes_are_shown_in_hexadecimal() {
    assert!(status("PdhCollectQueryData", 0).is_ok());
    assert_eq!(
        status("PdhCollectQueryData", -2147481643).unwrap_err(),
        "PdhCollectQueryData: PDH 0x800007D5"
    );
}

#[test]
fn counter_values_must_be_valid() {
    assert_eq!(formatted_value(0, 0, d(1.5), "1.5").unwrap(), d(1.5));
    assert_eq!(formatted_value(0, 1, d(0.0), "0").unwrap(), d(0.0));
    assert_eq!(
        formatted_value(1, 0, d(1.5), "1.5").unwrap_err(),
        "PdhGetFormattedCounterValue: PDH 0x00000001"
    );
    assert_eq!(
        formatted_value(0, 0xc0000bba, d(1.5), "1.5").unwrap_err(),
        "PDH CStatus=0xC0000BBA"
    );
    assert_eq!(
        formatted_value(0, 0, d(-1.0), "-1").unwrap_err(),
        "无效计数器值：-1"
    );
    assert!(formatted_value(0, 0, d(f64::NAN), "NaN").is_err());
    assert!(formatted_value(0, 0, d(f64::INFINITY), "inf").is_err());
}

#[test]
fn a_baseline_warms_up_and_expires() {
    let mut sampler = CpuFrequencySampler::new(at(0));
    assert_eq!(sampler.poll(at(499 * MS)), Readiness::Warming);
    assert_eq!(sampler.poll(at(500 * MS)), Readiness::Ready);
    assert_eq!(sampler.poll(at(3000 * MS)), Readiness::Ready);
    assert_eq!(sampler.poll(at(5501 * MS)), Readiness::Rebase);
    assert_eq!(sampler.poll(at(5900 * MS)), Readiness::Warming);
    assert_eq!(sampler.poll(at(6001 * MS)), Readiness::Ready);
}

#[test]
fn frequency_is_base_times_performance() {
    let collected = |base: f64, performance: f64| {
        frequency(FrequencyPoll::Collected(Ok((d(base), d(performance)))))
    };
    assert_eq!(collected(2500.0, 110.0).unwrap(), Some(d(2500.0 * 110.0 / 100.0)));
    assert_eq!(collected(0.0, 110.0).unwrap(), None);
    assert_eq!(collected(2500.0, 0.0).unwrap(), None);
    assert_eq!(
        collected(f64::MAX, 110.0).unwrap_err(),
        "CPU 估算频率不是有限数"
    );
    assert_eq!(frequency(FrequencyPoll::Warming).unwrap(), None);
    assert_eq!(frequency(FrequencyPoll::Rebased(Ok(()))).unwrap(), None);
    assert_eq!(
        frequency(FrequencyPoll::Rebased(Err("x".to_string()))).unwrap_err(),
        "x"
    );
    assert_eq!(
        frequency(FrequencyPoll::Collected(Err("y".to_string()))).unwrap_err(),
        "y"
    );
}

fn described(flags: u32, low: u32) -> AdapterQuery {
    AdapterQuery::Described(AdapterDescription {
        flags,
        description: vec![0x47, 0x50, 0x55, 0, 0x41],
        luid_high: -1,
        luid_low: low,
    })
}

fn scan(answers: Vec<AdapterQuery>) -> Result<Vec<Adapter>, String> {
    let mut scan = AdapterScan::new();
    for answer in answers {
        match scan.advance(answer) {
            AdapterStep::Query(next) => scan = next,
            AdapterStep::Finished(result) => return result,
        }
    }
    panic!("the enumeration did not end");
}

#[test]
fn adapters_are_marked_and_software_is_skipped() {
    let found = scan(vec![
        described(0, 0x10ad1),
        described(2, 7),
        AdapterQuery::EnumerationFailed(DXGI_ERROR_NOT_FOUND, "end".to_string()),
    ])
    .unwrap();
    assert_eq!(found.len(), 1);
    assert_eq!(found[0].name, "GPU");
    assert_eq!(found[0].marker, "_luid_0xffffffff_0x00010ad1_");
}

#[test]
fn adapter_failures_are_told() {
    assert_eq!(
        scan(vec![AdapterQuery::EnumerationFailed(
            DXGI_ERROR_NOT_FOUND,
            "end".to_string()
        )])
        .unwrap_err(),
        "DXGI 没有枚举到物理 GPU 适配器"
    );
    assert_eq!(
        scan(vec![AdapterQuery::EnumerationFailed(1, "broken".to_string())]).unwrap_err(),
        "枚举 GPU 适配器失败：broken"
    );
    assert_eq!(
        scan(vec![AdapterQuery::DescriptionFailed("broken".to_string())]).unwrap_err(),
        "读取 GPU 适配器信息失败：broken"
    );
    let mut many = Vec::new();
    for i in 0..MAX_ADAPTERS {
        many.push(described(0, i));
    }
    assert_eq!(scan(many).unwrap().len(), 32);
}

#[test]
fn array_steps_follow_the_codes() {
    assert!(matches!(after_size(0, 0), SizeStep::Empty));
    assert!(matches!(after_size(0x800007d2_u32 as i32, 17), SizeStep::Fill(3)));
    assert!(matches!(after_size(0x800007d2_u32 as i32, 16), SizeStep::Fill(2)));
    match after_size(5, 16) {
        SizeStep::Failed(e) => assert_eq!(e, "PDH 实例缓冲区大小查询失败：0x00000005"),
        _ => panic!("not failed"),
    }
    assert!(matches!(after_size(0x800007d2_u32 as i32, 0), SizeStep::Failed(_)));
    let more = 0x800007d2_u32 as i32;
    assert!(matches!(after_fill(0, more, 2, 16, 1, 8), FillStep::Retry));
    assert!(matches!(after_fill(1, more, 2, 16, 1, 8), FillStep::Retry));
    let failed = |step: FillStep| match step {
        FillStep::Failed(e) => e,
        _ => panic!("not failed"),
    };
    assert_eq!(
        failed(after_fill(2, more, 2, 16, 1, 8)),
        "GPU Engine 实例数持续变化，缓冲区三次重试仍不足"
    );
    assert_eq!(
        failed(after_fill(0, 6, 2, 16, 1, 8)),
        "PdhGetFormattedCounterArrayW: 0x00000006"
    );
    assert_eq!(
        failed(after_fill(0, 0, 2, 16, 3, usize::MAX / 2)),
        "PDH 实例数溢出"
    );
    assert_eq!(
        failed(after_fill(0, 0, 2, 17, 1, 8)),
        "PDH 实例数组超出输出缓冲区"
    );
    assert_eq!(
        failed(after_fill(0, 0, 2, 16, 3, 8)),
        "PDH 实例数组超出输出缓冲区"
    );
    assert!(matches!(after_fill(0, 0, 2, 16, 2, 8), FillStep::Read));
}

#[test]
fn items_without_a_percentage_are_left_out() {
    let buffer = [0x0042_0000_0041_0000, 0];
    let item = |status: u32, value: f64, name_at: usize| RawItem {
        status,
        value: d(value),
        name_at,
    };
    let items = [
        item(0, 12.5, 66),
        item(5, 13.0, 0),
        item(0, 101.0, 0),
        item(0, -1.0, 0),
        item(0, f64::NAN, 0),
        item(1, 100.0, 70),
    ];
    let values = read_items(&buffer, 64, 16, &items).unwrap();
    assert_eq!(
        values,
        vec![("A".to_string(), d(12.5)), ("B".to_string(), d(100.0))]
    );
    assert!(read_items(&buffer, 64, 16, &[item(0, 1.0, 1)]).is_err());
}

fn adapters() -> Vec<Adapter> {
    vec![Adapter {
        name: "GPU".to_string(),
        marker: "_luid_0x00000000_0x00010ad1_".to_string(),
    }]
}

fn instance(pid: u32, percent: f64) -> (String, Double) {
    (
        format!("pid_{}_luid_0x00000000_0x00010AD1_phys_0_eng_0_engtype_3D", pid),
        d(percent),
    )
}

#[test]
fn the_busiest_engine_is_the_first_maximum() {
    let values = [
        instance(1, 0.0),
        instance(2, 40.0),
        instance(3, 60.0),
        instance(4, 60.0),
        ("pid_9_engtype_3D".to_string(), d(90.0)),
    ];
    let best = busiest(&adapters(), &values).unwrap().unwrap();
    assert_eq!((best.pid, best.percent), (3, d(60.0)));
    assert_eq!((best.adapter.as_str(), best.engine_type.as_str()), ("GPU", "3D"));
    assert!(busiest(&adapters(), &values[..1]).unwrap().is_none());
    assert!(busiest(&adapters(), &[]).unwrap().is_none());
    assert_eq!(
        busiest(&adapters(), &values[4..]).unwrap_err(),
        "没有匹配 DXGI 物理适配器的 GPU Engine 实例"
    );
}

fn rates() -> Result<DiskRates, String> {
    Ok(DiskRates {
        read_bps: d(1.0),
        write_bps: d(2.0),
    })
}

#[test]
fn failed_queries_are_opened_again_only_after_the_interval() {
    let mut sampler = Sampler::new(at(0), Err("closed".to_string()), Ok(()));
    assert!(!sampler.disk_is_open() && sampler.gpu_is_open());
    assert_eq!(sampler.poll(at(SECOND)), Readiness::Ready);
    let early = sampler.report(at(SECOND), None, Some(Ok(None)));
    assert_eq!(early.snapshot.disk.unwrap_err(), "closed");
    assert!(early.snapshot.gpu.unwrap().is_none());
    assert!(!early.reopen_disk && !early.reopen_gpu);
    let due = sampler.report(at(RETRY_INTERVAL), None, Some(Err("gone".to_string())));
    assert!(due.reopen_disk && due.reopen_gpu);
    sampler.disk_reopened(Ok(()));
    sampler.gpu_reopened(Err("still".to_string()));
    let engine = EngineReading {
        adapter: "GPU".to_string(),
        pid: 1,
        engine_type: "3D".to_string(),
        percent: d(5.0),
    };
    assert_eq!(engine.clone().adapter, engine.adapter);
    assert_eq!(engine.clone().percent, engine.percent);
    let next = sampler.report(at(RETRY_INTERVAL + SECOND), Some(rates()), Some(Ok(Some(engine))));
    assert_eq!(next.snapshot.disk.unwrap().write_bps, d(2.0));
    assert_eq!(next.snapshot.gpu.unwrap_err(), "still");
    assert!(!next.reopen_disk && !next.reopen_gpu);
}

#[test]
fn what_stands_behind_the_filled_part_does_not_matter() {
    let clean = [0x0000_0042_0041_0000_u64, 0];
    let dirty = [0x0000_0042_0041_0000_u64, u64::MAX];
    for used in 0..9 {
        for at in 60..80 {
            assert_eq!(
                name_from_buffer(&clean, 64, used, at),
                name_from_buffer(&dirty, 64, used, at)
            );
        }
    }
    assert_eq!(name_from_buffer(&dirty, 64, 8, 66).unwrap(), "AB");
}
