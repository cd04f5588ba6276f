use calculate_differences::query::calculations::{
    calculate_self_time, calculate_total_time, get_impl_arg, get_start_of_cpp,
};
use calculate_differences::query::query::{
    Cost, CostResult, DataPoint, Query, QueryResult, Reduce, SelfTime, Stat, StatResult,
    TotalTime,
};
use calculate_differences::query::query_config::{QueryConfig, QueryConfigParsed};
use calculate_differences::query::{
    cost_query, index_to_original_csv, reduce_query, reduce_target, run_query, self_time_query,
    stat_query, total_time_query,
};
use calculate_differences::zone_search::set_zone_idx;
use calculate_differences::zones::Zone;

fn from_csv_strings(strings: Vec<&str>) -> Result<Vec<Zone>, std::num::ParseIntError> {
    let mut out = vec![];

    for string in strings {
        let record = string.split(",").collect::<Vec<&str>>();
        let track_id = record.get(1).unwrap().parse::<usize>()?;
        let name = record.get(2).unwrap();
        let start_time = record.get(3).unwrap().parse::<u64>()?;
        let end_time = record.get(4).unwrap().parse::<u64>()?;

        out.push(Zone::new(name.to_string(), start_time, end_time, track_id));
    }

    return Ok(out);
}

fn self_time_zones() -> Vec<Zone> {
    let mut zones = vec![
        Zone::new("foo".to_string(), 8, 20, 0),
        Zone::new("foo2".to_string(), 10, 50, 0),
        Zone::new("foo".to_string(), 30, 40, 0),
        Zone::new("foo".to_string(), 48, 55, 0),
    ];
    set_zone_idx(&mut zones);
    zones
}

fn self_time_zones_with_ignores() -> Vec<Zone> {
    let mut zones = vec![
        Zone::new("foo".to_string(), 8, 20, 0),
        Zone::new("foo2".to_string(), 10, 50, 0),
        Zone::new("ignore-me".to_string(), 25, 30, 0),
        Zone::new("foo".to_string(), 30, 40, 0),
        Zone::new("foo".to_string(), 48, 55, 0),
    ];
    set_zone_idx(&mut zones);
    zones
}

fn reduce_zones() -> Vec<Zone> {
    let mut zones = vec![
        Zone::new("excluded_outside_left".to_string(), 6, 20, 0),
        Zone::new("included_partial_left".to_string(), 8, 26, 0),
        Zone::new("excluded_container".to_string(), 10, 51, 0),
        Zone::new("root".to_string(), 25, 50, 0),
        Zone::new("contained".to_string(), 30, 40, 0),
        Zone::new("included_partial_right".to_string(), 48, 55, 0),
        Zone::new("excluded_outside_right".to_string(), 51, 60, 0),
    ]
    .into_iter()
    .map(|mut zone| {
        zone.original_csv = format!("{}", zone.name);
        return zone;
    })
    .collect::<Vec<Zone>>();

    set_zone_idx(&mut zones);
    zones
}

fn cost_zones() -> Vec<Zone> {
    let mut zones = from_csv_strings(vec![
        "TM_ZONE,65536,V8TracingController.AddTraceEvent,1642630333023844044,1642630333023848502,10,0x0,0xff0000ff,include/nrdbase/Telemetry.h,86,0,0",
        "TM_ZONE,65536,V8.ExternalCallback,1642630333023852127,1642630333023877210,7,0x0,0x0,/home/mpaulson/.pvm/installed/odroid-x86_64/32-release-21.2/dev/.pvm/build/src/src/base/Telemetry.h,111,0,0",
        "TM_ZONE,65536,INST_DataBufferBridge_CLASSgetUint8,1642630333023854211,1642630333023867793,8,0x0,0x0,/home/mpaulson/.pvm/installed/odroid-x86_64/32-release-21.2/dev/.pvm/build/src/src/base/Telemetry.h,111,0,0",
        "TM_ZONE,65536,toImplArgs2,1642630333023856211,1642630333023858544,9,0x0,0x0,/home/mpaulson/.pvm/installed/odroid-x86_64/32-release-21.2/dev/.pvm/build/src/src/base/Telemetry.h,111,0,0",
        "TM_ZONE,65536,DataBufferBridge.getUint8,1642630333023863169,1642630333023865376,9,0x0,0x0,/home/mpaulson/.pvm/installed/odroid-x86_64/32-release-21.2/dev/.pvm/build/src/src/base/Telemetry.h,111,0,0",
        "TM_ZONE,65536,V8TracingController.AddTraceEvent,1642630333023869126,1642630333023873710,10,0x0,0xff0000ff,include/nrdbase/Telemetry.h,86,0,0",
        "TM_ZONE,65536,V8.Builtin_HandleApiCall,1642630333023839586,1642630333023880460,6,0x0,0x0,/home/mpaulson/.pvm/installed/odroid-x86_64/32-release-21.2/dev/.pvm/build/src/src/base/Telemetry.h,111,0,0",
    ]).unwrap();
    set_zone_idx(&mut zones);
    zones
}

#[test]
fn mod_test_self_time_query() {
    let mut zones = vec![
        Zone::new("foo".to_string(), 8, 20, 0),
        Zone::new("foo2".to_string(), 10, 50, 0),
        Zone::new("foo".to_string(), 30, 40, 0),
        Zone::new("foo".to_string(), 48, 55, 0),
    ];

    set_zone_idx(&mut zones);

    let self_time = SelfTime {
        partial_ignore: vec!["foo".to_string()],
        node: "foo2".to_string(),
    };

    let config = QueryConfig {
        ignores: vec![],
        queries: vec![],
    };

    let res = self_time_query(&self_time, &config, &zones);

    assert_eq!(res.len(), 1);
    assert_eq!(
        *res.get(0).unwrap(),
        QueryResult::DataPoint(DataPoint {
            query: "SelfTime".to_string(),
            name: "foo2".to_string(),
            count: 28,
            additional_data: None,
        })
    )
}

#[test]
fn mod_test_self_time_query_with_ignores() {
    let mut zones = vec![
        Zone::new("foo".to_string(), 8, 20, 0),
        Zone::new("foo2".to_string(), 10, 50, 0),
        Zone::new("ignore-me".to_string(), 25, 30, 0),
        Zone::new("foo".to_string(), 30, 40, 0),
        Zone::new("foo".to_string(), 48, 55, 0),
    ];

    set_zone_idx(&mut zones);

    let self_time = SelfTime {
        partial_ignore: vec!["foo".to_string()],
        node: "foo2".to_string(),
    };

    let config = QueryConfig {
        ignores: vec!["ignore-me".to_string()],
        queries: vec![],
    };

    let res = self_time_query(&self_time, &config, &zones);

    assert_eq!(res.len(), 1);
    assert_eq!(
        *res.get(0).unwrap(),
        QueryResult::DataPoint(DataPoint {
            query: "SelfTime".to_string(),
            name: "foo2".to_string(),
            count: 23,
            additional_data: None,
        })
    )
}

#[test]
fn query_test_self_time_query() {
    let mut zones = vec![
        Zone::new("foo".to_string(), 8, 20, 0),
        Zone::new("foo2".to_string(), 10, 50, 0),
        Zone::new("foo".to_string(), 30, 40, 0),
        Zone::new("foo".to_string(), 48, 55, 0),
    ];

    set_zone_idx(&mut zones);

    let self_time = SelfTime {
        partial_ignore: vec!["foo".to_string()],
        node: "foo2".to_string(),
    };

    let config: QueryConfig = QueryConfigParsed {
        ignores: vec![],
        queries: vec![],
    }
    .into();

    let res = self_time_query(&self_time, &config, &zones);

    assert_eq!(res.len(), 1);
    assert_eq!(
        *res.get(0).unwrap(),
        QueryResult::DataPoint(DataPoint {
            query: "SelfTime".to_string(),
            name: "foo2".to_string(),
            count: 28,
            additional_data: None,
        })
    )
}

#[test]
fn query_test_self_time_query_with_ignores() {
    let mut zones = vec![
        Zone::new("foo".to_string(), 8, 20, 0),
        Zone::new("foo2".to_string(), 10, 50, 0),
        Zone::new("ignore-me".to_string(), 25, 30, 0),
        Zone::new("foo".to_string(), 30, 40, 0),
        Zone::new("foo".to_string(), 48, 55, 0),
    ];

    set_zone_idx(&mut zones);

    let self_time = SelfTime {
        partial_ignore: vec!["foo".to_string()],
        node: "foo2".to_string(),
    };

    let config: QueryConfig = QueryConfigParsed {
        ignores: vec!["ignore-me".to_string()],
        queries: vec![],
    }
    .into();

    let res = self_time_query(&self_time, &config, &zones);

    assert_eq!(res.len(), 1);
    assert_eq!(
        *res.get(0).unwrap(),
        QueryResult::DataPoint(DataPoint {
            query: "SelfTime".to_string(),
            name: "foo2".to_string(),
            count: 23,
            additional_data: None,
        })
    )
}

#[test]
fn test_reduce_query() {
    let mut zones = vec![
        Zone::new("excluded_outside_left".to_string(), 6, 20, 0),
        Zone::new("included_partial_left".to_string(), 8, 26, 0),
        Zone::new("excluded_container".to_string(), 10, 51, 0),
        Zone::new("root".to_string(), 25, 50, 0),
        Zone::new("contained".to_string(), 30, 40, 0),
        Zone::new("included_partial_right".to_string(), 48, 55, 0),
        Zone::new("excluded_outside_right".to_string(), 51, 60, 0),
    ]
    .into_iter()
    .map(|mut zone| {
        zone.original_csv = format!("{}", zone.name);
        return zone;
    })
    .collect::<Vec<Zone>>();

    set_zone_idx(&mut zones);

    let reduce = Reduce {
        node: "root".to_string(),
        ignore_count: Some(0),
    };

    let res = reduce_query(&reduce, &zones)
        .into_iter()
        .map(|qr| {
            return match qr {
                QueryResult::OriginalCsvRow(s) => s,
                _ => "YOU SUCK".to_string(),
            };
        })
        .collect::<Vec<String>>();

    assert_eq!(res.len(), 4);
    assert_eq!(res.get(0).unwrap(), "included_partial_left"); // left
    assert_eq!(res.get(1).unwrap(), "included_partial_right"); // right
    assert_eq!(res.get(2).unwrap(), "contained"); // right
    assert_eq!(res.get(3).unwrap(), "root"); // right
}

#[test]
fn test_stat_query() {
    let mut zones = vec![
        Zone::new("foo".to_string(), 6, 20, 0),
        Zone::new("foo".to_string(), 8, 26, 0),
        Zone::new("foo2".to_string(), 10, 51, 0),
        Zone::new("foo3".to_string(), 11, 51, 0),
    ]
    .into_iter()
    .map(|mut zone| {
        zone.original_csv = format!("{}", zone.name);
        return zone;
    })
    .collect::<Vec<Zone>>();

    set_zone_idx(&mut zones);

    let stat = Stat {
        node: "foo".to_string(),
    };

    let res = stat_query(&stat, &zones)
        .into_iter()
        .map(|qr| {
            return qr.to_string();
        })
        .collect::<Vec<String>>();

    assert_eq!(res.len(), 2);
    assert_eq!(res.get(0).unwrap(), "foo,14,6,20"); // left
    assert_eq!(res.get(1).unwrap(), "foo,18,8,26"); // left
}

#[test]
fn test_cost_query() -> Result<(), std::num::ParseIntError> {
    let mut zones = from_csv_strings(vec![
        "TM_ZONE,65536,V8TracingController.AddTraceEvent,1642630333023844044,1642630333023848502,10,0x0,0xff0000ff,include/nrdbase/Telemetry.h,86,0,0",
        "TM_ZONE,65536,V8.ExternalCallback,1642630333023852127,1642630333023877210,7,0x0,0x0,/home/mpaulson/.pvm/installed/odroid-x86_64/32-release-21.2/dev/.pvm/build/src/src/base/Telemetry.h,111,0,0",
        "TM_ZONE,65536,INST_DataBufferBridge_CLASSgetUint8,1642630333023854211,1642630333023867793,8,0x0,0x0,/home/mpaulson/.pvm/installed/odroid-x86_64/32-release-21.2/dev/.pvm/build/src/src/base/Telemetry.h,111,0,0",
        "TM_ZONE,65536,toImplArgs2,1642630333023856211,1642630333023858544,9,0x0,0x0,/home/mpaulson/.pvm/installed/odroid-x86_64/32-release-21.2/dev/.pvm/build/src/src/base/Telemetry.h,111,0,0",
        "TM_ZONE,65536,DataBufferBridge.getUint8,1642630333023863169,1642630333023865376,9,0x0,0x0,/home/mpaulson/.pvm/installed/odroid-x86_64/32-release-21.2/dev/.pvm/build/src/src/base/Telemetry.h,111,0,0",
        "TM_ZONE,65536,V8TracingController.AddTraceEvent,1642630333023869126,1642630333023873710,10,0x0,0xff0000ff,include/nrdbase/Telemetry.h,86,0,0",
        "TM_ZONE,65536,V8.Builtin_HandleApiCall,1642630333023839586,1642630333023880460,6,0x0,0x0,/home/mpaulson/.pvm/installed/odroid-x86_64/32-release-21.2/dev/.pvm/build/src/src/base/Telemetry.h,111,0,0",
    ])?;
    set_zone_idx(&mut zones);

    let result = cost_query(
        &Cost {
            node: "DataBufferBridge.getUint8".to_string(),
        },
        &QueryConfig {
            ignores: vec!["V8TracingController.AddTraceEvent".to_string()],
            queries: vec![],
        },
        &zones,
    );

    assert_eq!(result.len(), 1);

    match result.get(0).unwrap() {
        QueryResult::Cost(c) => {
            let cpp_duration = 1642630333023865376u64 - 1642630333023863169u64;
            let args = 1642630333023858544u64 - 1642630333023856211u64;
            let tracing = 1642630333023848502u64 - 1642630333023844044u64 + 1642630333023873710u64
                - 1642630333023869126u64;
            let to_cpp_duration = 1642630333023880460 - 1642630333023839586u64;

            assert_eq!(c.cpp_duration, cpp_duration);
            assert_eq!(c.cost_of_args, args);
            assert_eq!(c.cost_of_javascript, to_cpp_duration - cpp_duration - tracing);
        }
        _ => unreachable!(),
    }

    return Ok(());
}

#[test]
fn cost_query_tracing_name_changes_only_the_calling_side() {
    let zones = cost_zones();
    let cost = Cost { node: "DataBufferBridge.getUint8".to_string() };
    let with = cost_query(
        &cost,
        &QueryConfig {
            ignores: vec!["V8TracingController.AddTraceEvent".to_string()],
            queries: vec![],
        },
        &zones,
    );
    let without = cost_query(&cost, &QueryConfig { ignores: vec![], queries: vec![] }, &zones);
    match (&with[0], &without[0]) {
        (QueryResult::Cost(a), QueryResult::Cost(b)) => {
            assert_eq!(a.cpp_duration, b.cpp_duration);
            assert_eq!(a.cost_of_args, b.cost_of_args);
            assert_eq!(a.name, "DataBufferBridge.getUint8");
            assert_eq!(b.cost_of_javascript - a.cost_of_javascript, 4458 + 4584);
            assert_eq!(a.cost_of_generated_bridge_method, 0);
        }
        _ => unreachable!(),
    }
}

#[test]
fn cost_query_falls_back_to_the_second_marker() {
    let mut zones = vec![
        Zone::new("V8.ExternalCallback".to_string(), 0, 100, 0),
        Zone::new("toImplArgs2".to_string(), 5, 15, 0),
        Zone::new("native".to_string(), 20, 50, 0),
    ];
    set_zone_idx(&mut zones);
    let res = cost_query(
        &Cost { node: "native".to_string() },
        &QueryConfig { ignores: vec![], queries: vec![] },
        &zones,
    );
    assert_eq!(
        res,
        vec![QueryResult::Cost(CostResult {
            name: "native".to_string(),
            cpp_duration: 30,
            cost_of_javascript: 70,
            cost_of_generated_bridge_method: 0,
            cost_of_args: 10,
        })]
    );
}

#[test]
fn cost_query_drops_a_zone_without_boundary() {
    let mut zones = vec![
        Zone::new("other".to_string(), 0, 100, 0),
        Zone::new("native".to_string(), 20, 50, 0),
        Zone::new("V8.Builtin_HandleApiCall".to_string(), 200, 300, 0),
        Zone::new("native".to_string(), 210, 220, 0),
    ];
    set_zone_idx(&mut zones);
    let res = cost_query(
        &Cost { node: "native".to_string() },
        &QueryConfig { ignores: vec![], queries: vec![] },
        &zones,
    );
    assert_eq!(
        res,
        vec![QueryResult::Cost(CostResult {
            name: "native".to_string(),
            cpp_duration: 10,
            cost_of_javascript: 90,
            cost_of_generated_bridge_method: 0,
            cost_of_args: 0,
        })]
    );
}

#[test]
fn cost_query_calling_side_stops_at_zero() {
    let mut zones = vec![
        Zone::new("V8.Builtin_HandleApiCall".to_string(), 0, 100, 0),
        Zone::new("ignored".to_string(), 0, 100, 0),
        Zone::new("native".to_string(), 20, 50, 0),
    ];
    set_zone_idx(&mut zones);
    let res = cost_query(
        &Cost { node: "native".to_string() },
        &QueryConfig { ignores: vec!["ignored".to_string()], queries: vec![] },
        &zones,
    );
    assert_eq!(
        res,
        vec![QueryResult::Cost(CostResult {
            name: "native".to_string(),
            cpp_duration: 30,
            cost_of_javascript: 0,
            cost_of_generated_bridge_method: 0,
            cost_of_args: 0,
        })]
    );
}

#[test]
fn start_of_cpp_prefers_the_first_marker() {
    let zones = cost_zones();
    assert_eq!(get_start_of_cpp(&zones, &vec![2, 1, 6]), Some(6));
    assert_eq!(get_start_of_cpp(&zones, &vec![2, 1]), Some(1));
    assert_eq!(get_start_of_cpp(&zones, &vec![2, 0]), None);
    assert_eq!(get_start_of_cpp(&zones, &vec![]), None);
    assert_eq!(get_impl_arg(&zones, 6), Some(3));
    assert_eq!(get_impl_arg(&zones, 4), None);
}

#[test]
fn self_time_of_nested_zones() {
    let mut zones = vec![
        Zone::new("A".to_string(), 50, 100, 0),
        Zone::new("B".to_string(), 68, 71, 0),
        Zone::new("C".to_string(), 68, 70, 0),
    ];
    set_zone_idx(&mut zones);
    let ignores = vec!["C".to_string()];
    assert_eq!(calculate_self_time(1, &zones, &vec![], &ignores), 1);
    assert_eq!(calculate_total_time(&zones[1], &zones, &ignores), 1);
    assert_eq!(calculate_self_time(0, &zones, &vec![], &ignores), 48);
    assert_eq!(calculate_self_time(2, &zones, &vec![], &ignores), 2);
}

#[test]
fn self_time_never_exceeds_the_duration() {
    let zones = self_time_zones_with_ignores();
    let names = vec!["foo".to_string(), "foo2".to_string(), "ignore-me".to_string()];
    for idx in 0..zones.len() {
        let t = calculate_self_time(idx, &zones, &names, &names);
        assert!(t <= zones[idx].duration);
    }
}

#[test]
fn self_time_stops_at_zero() {
    let mut zones = vec![
        Zone::new("pivot".to_string(), 10, 20, 0),
        Zone::new("ig".to_string(), 10, 20, 0),
        Zone::new("ig".to_string(), 11, 19, 0),
    ];
    set_zone_idx(&mut zones);
    assert_eq!(calculate_self_time(0, &zones, &vec![], &vec!["ig".to_string()]), 0);
    assert_eq!(calculate_total_time(&zones[0], &zones, &vec!["ig".to_string()]), 0);
}

#[test]
fn an_ignored_zone_inside_an_ignored_partial_is_counted_once() {
    let mut zones = vec![
        Zone::new("part".to_string(), 8, 20, 0),
        Zone::new("pivot".to_string(), 10, 50, 0),
        Zone::new("ig".to_string(), 12, 18, 0),
        Zone::new("ig".to_string(), 30, 35, 0),
    ];
    set_zone_idx(&mut zones);
    let partial = vec!["part".to_string()];
    let ignores = vec!["ig".to_string()];
    assert_eq!(calculate_self_time(1, &zones, &partial, &ignores), 40 - 10 - 5);
    assert_eq!(calculate_self_time(1, &zones, &vec![], &ignores), 40 - 6 - 5);
    assert_eq!(calculate_total_time(&zones[1], &zones, &ignores), 40 - 6 - 5);
}

#[test]
fn total_time_is_at_least_self_time() {
    let zones = self_time_zones_with_ignores();
    let partial = vec!["foo".to_string()];
    let ignores = vec!["ignore-me".to_string()];
    assert_eq!(calculate_total_time(&zones[1], &zones, &ignores), 35);
    assert_eq!(calculate_self_time(1, &zones, &partial, &ignores), 23);
    for idx in 0..zones.len() {
        assert!(
            calculate_total_time(&zones[idx], &zones, &ignores)
                >= calculate_self_time(idx, &zones, &partial, &ignores)
        );
    }
}

#[test]
fn total_time_query_yields_one_point_per_zone() {
    let zones = self_time_zones_with_ignores();
    let config = QueryConfig { ignores: vec!["ignore-me".to_string()], queries: vec![] };
    let res = total_time_query(&TotalTime { node: "foo2".to_string() }, &config, &zones);
    assert_eq!(
        res,
        vec![QueryResult::DataPoint(DataPoint {
            query: "TotalTime".to_string(),
            name: "foo2".to_string(),
            count: 35,
            additional_data: None,
        })]
    );
    let res = total_time_query(&TotalTime { node: "foo".to_string() }, &config, &zones);
    assert_eq!(res.len(), 3);
    assert_eq!(res[0].to_string(), "TotalTime,foo,12,");
}

#[test]
fn run_query_dispatches_on_the_kind() {
    let zones = reduce_zones();
    let config = QueryConfig { ignores: vec![], queries: vec![] };
    let stat = run_query(&Query::Stat(Stat { node: "root".to_string() }), &config, &zones);
    assert_eq!(
        stat,
        vec![QueryResult::Stat(StatResult {
            name: "root".to_string(),
            start_time: 25,
            end_time: 50,
            duration: 25,
        })]
    );
    let reduce = run_query(
        &Query::Reduce(Reduce { node: "root".to_string(), ignore_count: None }),
        &config,
        &zones,
    );
    assert_eq!(reduce, reduce_query(&Reduce { node: "root".to_string(), ignore_count: Some(0) }, &zones));
    let own = run_query(
        &Query::SelfTime(SelfTime { node: "root".to_string(), partial_ignore: vec![] }),
        &config,
        &zones,
    );
    assert_eq!(own[0].to_string(), "SelfTime,root,25,");
    let total = run_query(&Query::TotalTime(TotalTime { node: "root".to_string() }), &config, &zones);
    assert_eq!(total[0].to_string(), "TotalTime,root,25,");
    let cost = run_query(&Query::Cost(Cost { node: "root".to_string() }), &config, &zones);
    assert!(cost.is_empty());
}

#[test]
fn running_a_query_twice_gives_the_same_records() {
    let zones = self_time_zones_with_ignores();
    let config = QueryConfig { ignores: vec!["ignore-me".to_string()], queries: vec![] };
    let query = Query::SelfTime(SelfTime {
        node: "foo".to_string(),
        partial_ignore: vec!["foo2".to_string()],
    });
    let first = run_query(&query, &config, &zones);
    let second = run_query(&query, &config, &zones);
    assert_eq!(first.len(), 3);
    assert_eq!(first, second);
}

#[test]
fn reduce_target_counts_occurrences() {
    let zones = self_time_zones();
    assert_eq!(reduce_target(&Reduce { node: "foo".to_string(), ignore_count: None }, &zones), Some(0));
    assert_eq!(reduce_target(&Reduce { node: "foo".to_string(), ignore_count: Some(2) }, &zones), Some(3));
    assert_eq!(reduce_target(&Reduce { node: "foo".to_string(), ignore_count: Some(3) }, &zones), None);
    assert_eq!(reduce_target(&Reduce { node: "bar".to_string(), ignore_count: None }, &zones), None);
}

#[test]
fn original_row_is_the_source_record() {
    let zones = reduce_zones();
    assert_eq!(
        index_to_original_csv(&zones, 4),
        QueryResult::OriginalCsvRow("contained".to_string())
    );
    assert_eq!(index_to_original_csv(&zones, 4).to_string(), "contained");
}

#[test]
fn records_render_as_comma_separated_lines() {
    let point = QueryResult::DataPoint(DataPoint {
        query: "SelfTime".to_string(),
        name: "foo".to_string(),
        count: 0,
        additional_data: Some("note".to_string()),
    });
    assert_eq!(point.to_string(), "SelfTime,foo,0,note");
    let point = QueryResult::DataPoint(DataPoint {
        query: "SelfTime".to_string(),
        name: "foo".to_string(),
        count: u64::MAX,
        additional_data: None,
    });
    assert_eq!(point.to_string(), "SelfTime,foo,18446744073709551615,");
    let cost = QueryResult::Cost(CostResult {
        name: "n".to_string(),
        cpp_duration: 1,
        cost_of_javascript: 20,
        cost_of_generated_bridge_method: 4,
        cost_of_args: 300,
    });
    assert_eq!(cost.to_string(), "n,1,20,300,4");
    let stat = QueryResult::Stat(StatResult {
        name: "s".to_string(),
        start_time: 10,
        end_time: 109,
        duration: 99,
    });
    assert_eq!(stat.to_string(), "s,99,10,109");
}
